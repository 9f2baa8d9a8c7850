//! The environment that the EVM test binary runs code in: a contract storage
//! that starts empty and reads zero where nothing was written.

use vstd::prelude::*;
use crate::types::H256;
use crate::u256::U256;

verus! {

/// Errors that leaving the virtual machine can report.
#[derive(Clone, Copy, Debug, PartialEq, Eq, Structural)]
pub enum VmError {
    /// The run went wrong inside the environment.
    Internal,
}

/// The bytes that a storage read gives for a position never written: all zero.
pub open spec fn zero_word() -> Seq<u8> {
    Seq::new(32, |i: int| 0u8)
}

/// What reading position `key` of a storage with contents `m` gives.
pub open spec fn spec_storage_at(m: Map<Seq<u8>, Seq<u8>>, key: Seq<u8>) -> Seq<u8> {
    if m.contains_key(key) {
        m[key]
    } else {
        zero_word()
    }
}

/// A read gives back what the last write to the same position wrote, and a
/// write leaves every other position as it was.
pub proof fn lemma_read_after_write(m: Map<Seq<u8>, Seq<u8>>, key: Seq<u8>, value: Seq<u8>, other: Seq<u8>)
    ensures
        spec_storage_at(m.insert(key, value), key) == value,
        other != key ==> spec_storage_at(m.insert(key, value), other) == spec_storage_at(m, other),
{
}

/// A position that was never written reads zero.
pub proof fn lemma_fresh_storage_reads_zero(key: Seq<u8>)
    ensures
        spec_storage_at(Map::<Seq<u8>, Seq<u8>>::empty(), key) == zero_word(),
{
}

/// The storage contents after the writes `w` (position, value), in order, to an
/// empty storage.
pub open spec fn spec_after_writes(w: Seq<(Seq<u8>, Seq<u8>)>) -> Map<Seq<u8>, Seq<u8>>
    decreases w.len(),
{
    if w.len() == 0 {
        Map::empty()
    } else {
        spec_after_writes(w.drop_last()).insert(w.last().0, w.last().1)
    }
}

/// The value of the last of the writes `w` to position `key`, if there is one.
pub open spec fn spec_last_write(w: Seq<(Seq<u8>, Seq<u8>)>, key: Seq<u8>) -> Option<Seq<u8>>
    decreases w.len(),
{
    if w.len() == 0 {
        None
    } else if w.last().0 == key {
        Some(w.last().1)
    } else {
        spec_last_write(w.drop_last(), key)
    }
}

/// After a sequence of writes to an empty storage, a position reads the value
/// of the last write to it, and zero where it was never written.
pub proof fn lemma_storage_after_writes(w: Seq<(Seq<u8>, Seq<u8>)>, key: Seq<u8>)
    ensures
        spec_storage_at(spec_after_writes(w), key) == match spec_last_write(w, key) {
            Some(v) => v,
            None => zero_word(),
        },
    decreases w.len(),
{
    if w.len() > 0 {
        lemma_storage_after_writes(w.drop_last(), key);
        lemma_read_after_write(spec_after_writes(w.drop_last()), w.last().0, w.last().1, key);
    }
}

/// A fake externalities environment: storage only.
pub struct FakeExt {
    /// Position and value pairs, no position twice. A vector rather than a hash
    /// map: vstd specifies hash map lookups only for keys of the built-in
    /// integer and `bool` types (`obeys_key_model`), and a position is a 32-byte hash.
    store: Vec<(H256, H256)>,
}

impl FakeExt {
    /// No position is stored twice.
    #[verifier::type_invariant]
    spec fn keys_distinct(self) -> bool {
        forall|i: int, j: int|
            0 <= i < j < self.store.len() ==> #[trigger] self.store[i].0.0@ != #[trigger] self.store[j].0.0@
    }

    /// The storage contents: position bytes to value bytes.
    pub closed spec fn view(&self) -> Map<Seq<u8>, Seq<u8>> {
        Map::new(
            |k: Seq<u8>| exists|i: int| 0 <= i < self.store.len() && #[trigger] self.store[i].0.0@ == k,
            |k: Seq<u8>|
                self.store[choose|i: int| 0 <= i < self.store.len() && #[trigger] self.store[i].0.0@ == k].1.0@,
        )
    }

    /// Index of the entry for `key`, if there is one.
    fn find(&self, key: &H256) -> (r: Option<usize>)
        ensures
            match r {
                Some(i) => i < self.store.len() && self.store[i as int].0.0@ == key.0@,
                None => forall|i: int| 0 <= i < self.store.len() ==> #[trigger] self.store[i].0.0@ != key.0@,
            },
    {
        let mut i: usize = 0;
        while i < self.store.len()
            invariant
                0 <= i <= self.store.len(),
                forall|j: int| 0 <= j < i ==> #[trigger] self.store[j].0.0@ != key.0@,
            decreases self.store.len() - i,
        {
            if self.store[i].0.equals(key) {
                return Some(i);
            }
            i = i + 1;
        }
        None
    }

    /// Get the storage value at `key`; zero where nothing was written.
    pub fn storage_at(&self, key: &H256) -> (r: H256)
        ensures
            r.0@ == spec_storage_at(self.view(), key.0@),
    {
        proof {
            use_type_invariant(self);
        }
        match self.find(key) {
            Some(i) => {
                proof {
                    let k = key.0@;
                    assert(self.view().contains_key(k));
                    let c = choose|j: int| 0 <= j < self.store.len() && #[trigger] self.store[j].0.0@ == k;
                    assert(c == i);
                }
                self.store[i].1
            },
            None => {
                proof {
                    assert(!self.view().contains_key(key.0@));
                }
                H256::zero()
            },
        }
    }

    /// Set the storage value at `key`.
    pub fn set_storage(&mut self, key: H256, value: H256)
        ensures
            final(self).view() == old(self).view().insert(key.0@, value.0@),
    {
        proof {
            use_type_invariant(&*self);
        }
        let ghost old_store = self.store@;
        let ghost old_view = self.view();
        let found = self.find(&key);
        let mut st: Vec<(H256, H256)> = Vec::new();
        std::mem::swap(&mut st, &mut self.store);
        match found {
            Some(i) => {
                st.set(i, (key, value));
            },
            None => {
                st.push((key, value));
            },
        }
        proof {
            assert forall|a: int, b: int| 0 <= a < b < st.len() implies
                #[trigger] st[a].0.0@ != #[trigger] st[b].0.0@ by {
                if b < old_store.len() && a != found.unwrap_or(0) && b != found.unwrap_or(0) {
                    assert(old_store[a].0.0@ != old_store[b].0.0@);
                } else if b < old_store.len() {
                    assert(old_store[a].0.0@ != old_store[b].0.0@);
                }
            }
        }
        self.store = st;
        proof {
            use_type_invariant(&*self);
            let nv = self.view();
            let ov = old_view.insert(key.0@, value.0@);
            assert forall|k: Seq<u8>| #[trigger] nv.contains_key(k) == ov.contains_key(k) by {
                if ov.contains_key(k) && k != key.0@ {
                    let j = choose|j: int| 0 <= j < old_store.len() && #[trigger] old_store[j].0.0@ == k;
                    assert(self.store[j].0.0@ == k);
                }
                if nv.contains_key(k) && k != key.0@ {
                    let j = choose|j: int| 0 <= j < self.store.len() && #[trigger] self.store[j].0.0@ == k;
                    assert(old_store[j].0.0@ == k);
                }
                if k == key.0@ {
                    let j = if old_store.len() < self.store.len() { old_store.len() as int } else {
                        choose|j: int| 0 <= j < old_store.len() && #[trigger] old_store[j].0.0@ == k
                    };
                    assert(self.store[j].0.0@ == k);
                }
            }
            assert forall|k: Seq<u8>| #[trigger] nv.contains_key(k) implies nv[k] == ov[k] by {
                let j = choose|j: int| 0 <= j < self.store.len() && #[trigger] self.store[j].0.0@ == k;
                if k == key.0@ {
                    assert(self.store[j].1.0@ == value.0@);
                } else {
                    assert(old_store[j].0.0@ == k);
                    let c = choose|c: int| 0 <= c < old_store.len() && #[trigger] old_store[c].0.0@ == k;
                    assert(c == j);
                }
            }
            assert(nv =~= ov);
        }
    }

    /// Leave the virtual machine with `gas` left: the gas is handed back as it is.
    pub fn ret(self, gas: &U256, _data: &[u8]) -> (r: Result<U256, VmError>)
        ensures
            r == Ok::<U256, VmError>(*gas),
    {
        Ok(*gas)
    }
}

impl Default for FakeExt {
    /// An environment with empty storage.
    fn default() -> (r: FakeExt)
        ensures
            r.view() == Map::<Seq<u8>, Seq<u8>>::empty(),
    {
        let r = FakeExt { store: Vec::new() };
        proof {
            assert(r.view() =~= Map::<Seq<u8>, Seq<u8>>::empty());
        }
        r
    }
}

} // verus!
