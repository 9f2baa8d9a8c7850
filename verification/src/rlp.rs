//! Recursive Length Prefix (RLP) decoding: the byte format in which blocks,
//! headers and transactions travel.
//!
//! An item is either a byte string or a list of items. Its first byte tells
//! which, and how long the header and the payload are:
//! - below 0x80: the byte itself is a one-byte string (no header);
//! - 0x80..=0xb7: a string of up to 55 bytes follows;
//! - 0xb8..=0xbf: a big-endian length of 1 to 8 bytes follows, then the string;
//! - 0xc0..=0xf7: the concatenated items of a list, up to 55 bytes, follow;
//! - 0xf8..=0xff: a big-endian length of 1 to 8 bytes follows, then the list payload.
//! A length written in the long form has no leading zero byte. Bytes after the
//! first item are not read.

use vstd::prelude::*;
use crate::u256::{be_nat, be_u128};

verus! {

/// Header of a long-form item: `len_of_len` length bytes follow the first byte.
pub open spec fn spec_long_header(s: Seq<u8>, is_list: bool, len_of_len: nat) -> Option<(bool, nat, nat)> {
    if 1 + len_of_len <= s.len() && s[1] != 0 {
        Some((is_list, 1 + len_of_len, be_nat(s.subrange(1, (1 + len_of_len) as int))))
    } else {
        None
    }
}

/// The item that starts `s`: whether it is a list, the length of its header
/// and the length of its payload; `None` when `s` does not start with a whole item.
pub open spec fn spec_rlp_header(s: Seq<u8>) -> Option<(bool, nat, nat)> {
    if s.len() == 0 {
        None
    } else {
        let b = s[0];
        let h: Option<(bool, nat, nat)> = if b < 0x80 {
            Some((false, 0, 1))
        } else if b <= 0xb7 {
            Some((false, 1, (b - 0x80) as nat))
        } else if b <= 0xbf {
            spec_long_header(s, false, (b - 0xb7) as nat)
        } else if b <= 0xf7 {
            Some((true, 1, (b - 0xc0) as nat))
        } else {
            spec_long_header(s, true, (b - 0xf7) as nat)
        };
        match h {
            Some((l, hl, pl)) => if hl + pl <= s.len() {
                h
            } else {
                None
            },
            None => None,
        }
    }
}

/// The encodings of the consecutive items that make up `s` exactly.
pub open spec fn spec_rlp_split(s: Seq<u8>) -> Option<Seq<Seq<u8>>>
    decreases s.len(),
{
    if s.len() == 0 {
        Some(Seq::empty())
    } else {
        match spec_rlp_header(s) {
            None => None,
            Some((l, hl, pl)) => {
                let t = hl + pl;
                if 0 < t <= s.len() {
                    match spec_rlp_split(s.subrange(t as int, s.len() as int)) {
                        None => None,
                        Some(rest) => Some(seq![s.subrange(0, t as int)] + rest),
                    }
                } else {
                    None
                }
            },
        }
    }
}

/// The encoding of item `i` among the consecutive items at the start of `s`:
/// the items before it must be whole; what follows it is not read.
pub open spec fn spec_rlp_nth(s: Seq<u8>, i: nat) -> Option<Seq<u8>>
    decreases i,
{
    match spec_rlp_header(s) {
        None => None,
        Some((l, hl, pl)) => {
            let t = hl + pl;
            if 0 < t <= s.len() {
                if i == 0 {
                    Some(s.subrange(0, t as int))
                } else {
                    spec_rlp_nth(s.subrange(t as int, s.len() as int), (i - 1) as nat)
                }
            } else {
                None
            }
        },
    }
}

/// The encoding of element `i` of the list that starts `s`; the elements after
/// it are not read.
pub open spec fn spec_rlp_at(s: Seq<u8>, i: nat) -> Option<Seq<u8>> {
    match spec_rlp_header(s) {
        Some((l, hl, pl)) => if l {
            spec_rlp_nth(s.subrange(hl as int, (hl + pl) as int), i)
        } else {
            None
        },
        None => None,
    }
}

/// The encodings of the elements of the list that starts `s`.
pub open spec fn spec_rlp_list(s: Seq<u8>) -> Option<Seq<Seq<u8>>> {
    match spec_rlp_header(s) {
        Some((l, hl, pl)) => if l {
            spec_rlp_split(s.subrange(hl as int, (hl + pl) as int))
        } else {
            None
        },
        None => None,
    }
}

/// The bytes of the string item that starts `s`.
pub open spec fn spec_rlp_string(s: Seq<u8>) -> Option<Seq<u8>> {
    match spec_rlp_header(s) {
        Some((l, hl, pl)) => if !l {
            Some(s.subrange(hl as int, (hl + pl) as int))
        } else {
            None
        },
        None => None,
    }
}

/// The byte strings that the vectors `v` hold.
pub open spec fn views_of(v: Seq<Vec<u8>>) -> Seq<Seq<u8>> {
    Seq::new(v.len(), |i: int| v[i]@)
}

/// `pre` followed by the items of `o`, when there are any.
pub open spec fn prepend_items(pre: Seq<Seq<u8>>, o: Option<Seq<Seq<u8>>>) -> Option<Seq<Seq<u8>>> {
    match o {
        Some(rest) => Some(pre + rest),
        None => None,
    }
}

/// A copy of `s[start..end]`.
pub fn copy_range(s: &[u8], start: usize, end: usize) -> (r: Vec<u8>)
    requires
        start <= end <= s.len(),
    ensures
        r@ == s@.subrange(start as int, end as int),
{
    let mut r: Vec<u8> = Vec::new();
    let mut i = start;
    while i < end
        invariant
            start <= i <= end <= s.len(),
            r@ == s@.subrange(start as int, i as int),
        decreases end - i,
    {
        r.push(s[i]);
        proof {
            assert(s@.subrange(start as int, i + 1) =~= s@.subrange(start as int, i as int).push(s@[i as int]));
        }
        i = i + 1;
    }
    r
}

/// Reads the header of the item that starts `s[start..end]`: whether it is a list,
/// the header length and the payload length.
pub fn rlp_header(s: &[u8], start: usize, end: usize) -> (r: Option<(bool, usize, usize)>)
    requires
        start <= end <= s.len(),
    ensures
        match r {
            None => spec_rlp_header(s@.subrange(start as int, end as int)) is None,
            Some((l, hl, pl)) => spec_rlp_header(s@.subrange(start as int, end as int)) == Some(
                (l, hl as nat, pl as nat),
            ),
        },
{
    let ghost sub = s@.subrange(start as int, end as int);
    if start == end {
        return None;
    }
    let avail: usize = end - start;
    let b: u8 = s[start];
    let (is_list, hl, pl): (bool, usize, usize) = if b < 0x80 {
        (false, 0, 1)
    } else if b <= 0xb7 {
        (false, 1, (b - 0x80) as usize)
    } else if b <= 0xbf || b >= 0xf8 {
        let list: bool = b >= 0xf8;
        let ll: usize = if list { (b - 0xf7) as usize } else { (b - 0xb7) as usize };
        if 1 + ll > avail || s[start + 1] == 0 {
            return None;
        }
        let v: u128 = be_u128(s, start + 1, start + 1 + ll);
        proof {
            assert(sub.subrange(1, 1 + ll as int) =~= s@.subrange(start + 1, start + 1 + ll));
        }
        if v > (avail - 1 - ll) as u128 {
            return None;
        }
        (list, 1 + ll, v as usize)
    } else {
        (true, 1, (b - 0xc0) as usize)
    };
    if hl > avail || pl > avail - hl {
        return None;
    }
    Some((is_list, hl, pl))
}

/// The items of the list that starts `s`, each as its own encoding.
pub fn rlp_list(s: &[u8]) -> (r: Option<Vec<Vec<u8>>>)
    ensures
        match r {
            None => spec_rlp_list(s@) is None,
            Some(v) => spec_rlp_list(s@) == Some(views_of(v@)),
        },
{
    proof {
        assert(s@.subrange(0, s@.len() as int) =~= s@);
    }
    let h = rlp_header(s, 0, s.len());
    let (is_list, hl, pl) = match h {
        None => return None,
        Some(x) => x,
    };
    if !is_list {
        return None;
    }
    let end: usize = hl + pl;
    let ghost payload = s@.subrange(hl as int, end as int);
    let mut items: Vec<Vec<u8>> = Vec::new();
    let ghost mut seen: Seq<Seq<u8>> = Seq::empty();
    let mut pos: usize = hl;
    proof {
        assert(seen + Seq::<Seq<u8>>::empty() =~= seen);
        assert(prepend_items(seen, spec_rlp_split(payload)) == spec_rlp_split(payload)) by {
            match spec_rlp_split(payload) {
                Some(rest) => { assert(seen + rest =~= rest); },
                None => {},
            }
        }
    }
    while pos < end
        invariant
            hl <= pos <= end <= s.len(),
            payload == s@.subrange(hl as int, end as int),
            spec_rlp_list(s@) == spec_rlp_split(payload),
            spec_rlp_split(payload) == prepend_items(seen, spec_rlp_split(s@.subrange(pos as int, end as int))),
            items.len() == seen.len(),
            forall|i: int| 0 <= i < items.len() ==> #[trigger] items[i]@ == seen[i],
        decreases end - pos,
    {
        let ghost rest = s@.subrange(pos as int, end as int);
        let h2 = rlp_header(s, pos, end);
        match h2 {
            None => {
                return None;
            },
            Some((_l, ihl, ipl)) => {
                let t: usize = ihl + ipl;
                if t == 0 {
                    return None;
                }
                let item = copy_range(s, pos, pos + t);
                proof {
                    assert(rest.subrange(t as int, rest.len() as int) =~= s@.subrange(pos + t, end as int));
                    assert(rest.subrange(0, t as int) =~= s@.subrange(pos as int, pos + t));
                    let tail = spec_rlp_split(s@.subrange(pos + t, end as int));
                    assert(spec_rlp_split(rest) == prepend_items(seq![item@], tail));
                    match tail {
                        Some(tl) => {
                            assert(seen + (seq![item@] + tl) =~= seen.push(item@) + tl);
                        },
                        None => {},
                    }
                }
                items.push(item);
                proof {
                    seen = seen.push(item@);
                }
                pos = pos + t;
            },
        }
    }
    proof {
        assert(s@.subrange(pos as int, end as int) =~= Seq::<u8>::empty());
        assert(seen + Seq::<Seq<u8>>::empty() =~= seen);
        assert(views_of(items@) =~= seen);
    }
    Some(items)
}

/// The encoding of element `i` of the list that starts `s`; the elements after
/// it are not read.
pub fn rlp_at(s: &[u8], i: usize) -> (r: Option<Vec<u8>>)
    ensures
        match r {
            None => spec_rlp_at(s@, i as nat) is None,
            Some(v) => spec_rlp_at(s@, i as nat) == Some(v@),
        },
{
    proof {
        assert(s@.subrange(0, s@.len() as int) =~= s@);
    }
    let (is_list, hl, pl) = match rlp_header(s, 0, s.len()) {
        None => return None,
        Some(x) => x,
    };
    if !is_list {
        return None;
    }
    let end: usize = hl + pl;
    let mut pos: usize = hl;
    let mut k: usize = 0;
    while k < i
        invariant
            hl <= pos <= end <= s.len(),
            k <= i,
            spec_rlp_at(s@, i as nat) == spec_rlp_nth(s@.subrange(pos as int, end as int), (i - k) as nat),
        decreases i - k,
    {
        let ghost rest = s@.subrange(pos as int, end as int);
        match rlp_header(s, pos, end) {
            None => {
                return None;
            },
            Some((_l, ihl, ipl)) => {
                let t: usize = ihl + ipl;
                if t == 0 {
                    return None;
                }
                proof {
                    assert(rest.subrange(t as int, rest.len() as int) =~= s@.subrange(pos + t, end as int));
                }
                pos = pos + t;
                k = k + 1;
            },
        }
    }
    let ghost rest = s@.subrange(pos as int, end as int);
    match rlp_header(s, pos, end) {
        None => None,
        Some((_l, ihl, ipl)) => {
            let t: usize = ihl + ipl;
            if t == 0 {
                return None;
            }
            proof {
                assert(rest.subrange(0, t as int) =~= s@.subrange(pos as int, pos + t));
            }
            Some(copy_range(s, pos, pos + t))
        },
    }
}

/// The bytes of the string item that starts `s`.
pub fn rlp_string(s: &[u8]) -> (r: Option<Vec<u8>>)
    ensures
        match r {
            None => spec_rlp_string(s@) is None,
            Some(v) => spec_rlp_string(s@) == Some(v@),
        },
{
    proof {
        assert(s@.subrange(0, s@.len() as int) =~= s@);
    }
    match rlp_header(s, 0, s.len()) {
        None => None,
        Some((is_list, hl, pl)) => if is_list {
            None
        } else {
            Some(copy_range(s, hl, hl + pl))
        },
    }
}

} // verus!
