//! Sorting 256-bit words into ascending order.

use vstd::prelude::*;
use crate::u256::U256;

verus! {

/// `s` with `x` inserted before the first element that is greater than `x`.
pub open spec fn spec_insert(s: Seq<U256>, x: U256) -> Seq<U256>
    decreases s.len(),
{
    if s.len() == 0 {
        seq![x]
    } else if x.value() < s[0].value() {
        seq![x] + s
    } else {
        seq![s[0]] + spec_insert(s.drop_first(), x)
    }
}

/// `s` in ascending order, built by inserting its elements one after the other.
spec fn insertion_sort(s: Seq<U256>) -> Seq<U256>
    decreases s.len(),
{
    if s.len() == 0 {
        Seq::empty()
    } else {
        spec_insert(insertion_sort(s.drop_last()), s.last())
    }
}

/// `s` in ascending order: the ascending sequence that holds the words of `s`,
/// as often (there is exactly one, see `lemma_ascending_unique`).
pub open spec fn spec_sort(s: Seq<U256>) -> Seq<U256> {
    choose|t: Seq<U256>| #[trigger] ascending(t) && t.to_multiset() == s.to_multiset()
}

/// Whether the words of `s` ascend.
pub open spec fn ascending(s: Seq<U256>) -> bool {
    forall|i: int, j: int| 0 <= i <= j < s.len() ==> s[i].value() <= s[j].value()
}

/// Inserting `x` where the scan stops: after every element not greater than it.
proof fn lemma_insert_at(s: Seq<U256>, x: U256, p: int)
    requires
        0 <= p <= s.len(),
        forall|j: int| 0 <= j < p ==> !(x.value() < #[trigger] s[j].value()),
        p == s.len() || x.value() < s[p].value(),
    ensures
        spec_insert(s, x) == s.insert(p, x),
    decreases p,
{
    if p == 0 {
        if s.len() == 0 {
            assert(s.insert(0, x) =~= seq![x]);
        } else {
            assert(s.insert(0, x) =~= seq![x] + s);
        }
    } else {
        let t = s.drop_first();
        assert forall|j: int| 0 <= j < p - 1 implies !(x.value() < #[trigger] t[j].value()) by {
            assert(t[j] == s[j + 1]);
        }
        lemma_insert_at(t, x, p - 1);
        assert(!(x.value() < s[0].value()));
        assert(s.insert(p, x) =~= seq![s[0]] + t.insert(p - 1, x));
    }
}

/// Insertion keeps the words and adds `x`.
proof fn lemma_insert_multiset(s: Seq<U256>, x: U256)
    ensures
        spec_insert(s, x).to_multiset() == s.to_multiset().insert(x),
    decreases s.len(),
{
    broadcast use vstd::seq_lib::group_to_multiset_ensures;

    if s.len() == 0 {
        assert(seq![x] =~= Seq::<U256>::empty().push(x));
    } else if x.value() < s[0].value() {
        vstd::seq_lib::lemma_multiset_commutative(seq![x], s);
        assert(seq![x] =~= Seq::<U256>::empty().push(x));
    } else {
        let t = s.drop_first();
        lemma_insert_multiset(t, x);
        vstd::seq_lib::lemma_multiset_commutative(seq![s[0]], spec_insert(t, x));
        vstd::seq_lib::lemma_multiset_commutative(seq![s[0]], t);
        assert(seq![s[0]] + t =~= s);
        assert(seq![s[0]] =~= Seq::<U256>::empty().push(s[0]));
        assert(spec_insert(t, x).to_multiset().add(seq![s[0]].to_multiset()) =~= s.to_multiset().insert(x));
    }
}

/// Insertion into ascending words keeps them ascending.
proof fn lemma_insert_ascending(s: Seq<U256>, x: U256)
    requires
        ascending(s),
    ensures
        ascending(spec_insert(s, x)),
        spec_insert(s, x).len() == s.len() + 1,
        forall|k: int| 0 <= k < spec_insert(s, x).len() ==> (#[trigger] spec_insert(s, x)[k] == x
            || s.contains(spec_insert(s, x)[k])),
    decreases s.len(),
{
    if s.len() == 0 {
    } else if x.value() < s[0].value() {
        let r = seq![x] + s;
        assert forall|k: int| 0 <= k < r.len() implies (r[k] == x || s.contains(r[k])) by {
            if k > 0 {
                assert(r[k] == s[k - 1]);
            }
        }
    } else {
        let t = s.drop_first();
        assert(ascending(t)) by {
            assert forall|i: int, j: int| 0 <= i <= j < t.len() implies t[i].value() <= t[j].value() by {
                assert(t[i] == s[i + 1] && t[j] == s[j + 1]);
            }
        }
        lemma_insert_ascending(t, x);
        let it = spec_insert(t, x);
        let r = seq![s[0]] + it;
        assert forall|k: int| 0 <= k < it.len() implies s[0].value() <= #[trigger] it[k].value() by {
            if it[k] != x {
                let m = choose|m: int| 0 <= m < t.len() && t[m] == it[k];
                assert(t[m] == s[m + 1]);
            }
        }
        assert forall|i: int, j: int| 0 <= i <= j < r.len() implies r[i].value() <= r[j].value() by {
            if i > 0 {
                assert(r[i] == it[i - 1] && r[j] == it[j - 1]);
            } else if j > 0 {
                assert(r[j] == it[j - 1]);
            }
        }
        assert forall|k: int| 0 <= k < r.len() implies (r[k] == x || s.contains(r[k])) by {
            if k == 0 {
                assert(s[0] == r[0]);
            } else {
                assert(r[k] == it[k - 1]);
                if it[k - 1] != x {
                    let m = choose|m: int| 0 <= m < t.len() && t[m] == it[k - 1];
                    assert(s[m + 1] == t[m]);
                }
            }
        }
    }
}

/// Insertion sort gives ascending words, the same words, as often, as the input.
proof fn lemma_insertion_sort(s: Seq<U256>)
    ensures
        ascending(insertion_sort(s)),
        insertion_sort(s).to_multiset() == s.to_multiset(),
    decreases s.len(),
{
    broadcast use vstd::seq_lib::group_to_multiset_ensures;

    if s.len() == 0 {
        assert(s.to_multiset() =~= vstd::multiset::Multiset::empty());
    } else {
        let t = s.drop_last();
        lemma_insertion_sort(t);
        lemma_insert_ascending(insertion_sort(t), s.last());
        lemma_insert_multiset(insertion_sort(t), s.last());
        assert(t.push(s.last()) =~= s);
    }
}

/// The sorted words ascend and are the same words, as often, as the input.
pub proof fn lemma_sort_ascending_permutation(s: Seq<U256>)
    ensures
        ascending(spec_sort(s)),
        spec_sort(s).to_multiset() == s.to_multiset(),
        spec_sort(s).len() == s.len(),
{
    lemma_insertion_sort(s);
    let w = insertion_sort(s);
    assert(ascending(w) && w.to_multiset() == s.to_multiset());
    vstd::seq_lib::to_multiset_len(spec_sort(s));
    vstd::seq_lib::to_multiset_len(s);
}

/// Two ascending sequences that hold the same words, as often, are the same.
pub proof fn lemma_ascending_unique(a: Seq<U256>, b: Seq<U256>)
    requires
        ascending(a),
        ascending(b),
        a.to_multiset() == b.to_multiset(),
    ensures
        a == b,
    decreases a.len(),
{
    broadcast use vstd::seq_lib::group_to_multiset_ensures;

    vstd::seq_lib::to_multiset_len(a);
    vstd::seq_lib::to_multiset_len(b);
    assert(a.len() == b.len());
    if a.len() == 0 {
        assert(a =~= b);
    } else {
        assert(a.to_multiset().count(a[0]) > 0);
        assert(b.contains(a[0]));
        let j = choose|j: int| 0 <= j < b.len() && b[j] == a[0];
        assert(b[0].value() <= b[j].value());
        assert(b.to_multiset().count(b[0]) > 0);
        assert(a.contains(b[0]));
        let i = choose|i: int| 0 <= i < a.len() && a[i] == b[0];
        assert(a[0].value() <= a[i].value());
        U256::lemma_value_injective(a[0], b[0]);
        assert(a[0] == b[0]);
        let a1 = a.drop_first();
        let b1 = b.drop_first();
        assert(a.remove(0) =~= a1);
        assert(b.remove(0) =~= b1);
        assert(a1.to_multiset() =~= b1.to_multiset());
        assert(ascending(a1)) by {
            assert forall|x: int, y: int| 0 <= x <= y < a1.len() implies a1[x].value() <= a1[y].value() by {
                assert(a1[x] == a[x + 1] && a1[y] == a[y + 1]);
            }
        }
        assert(ascending(b1)) by {
            assert forall|x: int, y: int| 0 <= x <= y < b1.len() implies b1[x].value() <= b1[y].value() by {
                assert(b1[x] == b[x + 1] && b1[y] == b[y + 1]);
            }
        }
        lemma_ascending_unique(a1, b1);
        assert(a =~= b) by {
            assert forall|x: int| 0 <= x < a.len() implies a[x] == b[x] by {
                if x > 0 {
                    assert(a[x] == a1[x - 1] && b[x] == b1[x - 1]);
                }
            }
        }
    }
}

/// Sorts the words into ascending order.
pub fn sort_words(v: &Vec<U256>) -> (r: Vec<U256>)
    ensures
        r@ == spec_sort(v@),
{
    let mut out: Vec<U256> = Vec::new();
    let mut i: usize = 0;
    proof {
        assert(v@.subrange(0, 0) =~= Seq::<U256>::empty());
    }
    while i < v.len()
        invariant
            0 <= i <= v.len(),
            out@ == insertion_sort(v@.subrange(0, i as int)),
        decreases v.len() - i,
    {
        let x: U256 = v[i];
        let mut p: usize = 0;
        while p < out.len() && !x.lt(&out[p])
            invariant
                0 <= p <= out.len(),
                forall|j: int| 0 <= j < p ==> !(x.value() < #[trigger] out@[j].value()),
            decreases out.len() - p,
        {
            p = p + 1;
        }
        proof {
            lemma_insert_at(out@, x, p as int);
            assert(v@.subrange(0, i + 1).drop_last() =~= v@.subrange(0, i as int));
            assert(v@.subrange(0, i + 1).last() == x);
        }
        out.insert(p, x);
        i = i + 1;
    }
    proof {
        assert(v@.subrange(0, v.len() as int) =~= v@);
        lemma_insertion_sort(v@);
        lemma_sort_ascending_permutation(v@);
        lemma_ascending_unique(out@, spec_sort(v@));
    }
    out
}

} // verus!
