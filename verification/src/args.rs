//! Hexadecimal text and the command line arguments of the EVM test binary.

use vstd::prelude::*;
use crate::types::Bytes;
use crate::u256::{be_nat, U256};
use rustc_serialize::hex::FromHex;

verus! {

/// The value of a hexadecimal digit.
pub open spec fn hex_digit_value(c: char) -> Option<u8> {
    let v = c as u32;
    if 0x30 <= v <= 0x39 {
        Some((v - 0x30) as u8)
    } else if 0x61 <= v <= 0x66 {
        Some((v - 0x61 + 10) as u8)
    } else if 0x41 <= v <= 0x46 {
        Some((v - 0x41 + 10) as u8)
    } else {
        None
    }
}

/// Whitespace that hexadecimal text may hold anywhere: space, CR, LF, tab.
pub open spec fn is_hex_space(c: char) -> bool {
    c == ' ' || c == '\r' || c == '\n' || c == '\t'
}

/// The digit values of `s`, whitespace skipped; `None` if `s` holds another character.
pub open spec fn hex_nibbles(s: Seq<char>) -> Option<Seq<u8>>
    decreases s.len(),
{
    if s.len() == 0 {
        Some(Seq::empty())
    } else {
        match hex_nibbles(s.drop_last()) {
            None => None,
            Some(n) => if is_hex_space(s.last()) {
                Some(n)
            } else {
                match hex_digit_value(s.last()) {
                    Some(d) => Some(n.push(d)),
                    None => None,
                }
            },
        }
    }
}

/// Pairs of digit values read as bytes, high digit first.
pub open spec fn pack_nibbles(n: Seq<u8>) -> Seq<u8> {
    Seq::new(n.len() / 2, |i: int| (n[2 * i] * 16 + n[2 * i + 1]) as u8)
}

/// The bytes that hexadecimal text denotes: `None` when it holds a character
/// other than a digit or whitespace, or an odd number of digits.
pub open spec fn spec_from_hex(s: Seq<char>) -> Option<Seq<u8>> {
    match hex_nibbles(s) {
        Some(n) => if n.len() % 2 == 0 {
            Some(pack_nibbles(n))
        } else {
            None
        },
        None => None,
    }
}

/// Errors of hexadecimal decoding.
#[derive(Clone, Copy, Debug, PartialEq, Eq)]
pub enum FromHexError {
    /// The input held a character that is no hexadecimal digit, at this byte position.
    InvalidHexCharacter(char, usize),
    /// The input held an odd number of digits.
    InvalidHexLength,
}

/// Whether a character may stand in hexadecimal text: a digit or whitespace.
pub open spec fn is_hex_char(c: char) -> bool {
    is_hex_space(c) || hex_digit_value(c) is Some
}

/// The position of the first character of `s` that may not stand in hexadecimal text.
pub open spec fn first_non_hex(s: Seq<char>) -> Option<nat>
    decreases s.len(),
{
    if s.len() == 0 {
        None
    } else if !is_hex_char(s[0]) {
        Some(0)
    } else {
        match first_non_hex(s.drop_first()) {
            Some(j) => Some(j + 1),
            None => None,
        }
    }
}

/// The error that refused hexadecimal text `s` is reported with: its first
/// character that is no digit nor whitespace, with that character's byte
/// position, or else the odd number of digits.
pub open spec fn spec_hex_error(s: Seq<char>) -> FromHexError {
    match first_non_hex(s) {
        Some(j) => FromHexError::InvalidHexCharacter(
            s[j as int],
            vstd::utf8::encode_utf8(s.take(j as int)).len() as usize,
        ),
        None => FromHexError::InvalidHexLength,
    }
}

/// The digits of text can be read exactly when every character is a digit or whitespace.
proof fn lemma_hex_nibbles_some(s: Seq<char>)
    ensures
        (hex_nibbles(s) is Some) == (forall|i: int| 0 <= i < s.len() ==> is_hex_char(#[trigger] s[i])),
    decreases s.len(),
{
    if s.len() > 0 {
        lemma_hex_nibbles_some(s.drop_last());
        if !is_hex_char(s.last()) {
            assert(!is_hex_char(s[s.len() - 1]));
        }
        if hex_nibbles(s) is Some {
            assert forall|i: int| 0 <= i < s.len() implies is_hex_char(#[trigger] s[i]) by {
                if i < s.len() - 1 {
                    assert(s.drop_last()[i] == s[i]);
                }
            }
        }
        if forall|i: int| 0 <= i < s.len() ==> is_hex_char(#[trigger] s[i]) {
            assert forall|i: int| 0 <= i < s.drop_last().len() implies is_hex_char(#[trigger] s.drop_last()[i]) by {
                assert(s.drop_last()[i] == s[i]);
            }
            assert(is_hex_char(s[s.len() - 1]));
        }
    }
}

/// No character stands out exactly when every character is a digit or whitespace.
proof fn lemma_first_non_hex_none(s: Seq<char>)
    ensures
        (first_non_hex(s) is None) == (forall|i: int| 0 <= i < s.len() ==> is_hex_char(#[trigger] s[i])),
    decreases s.len(),
{
    if s.len() > 0 {
        lemma_first_non_hex_none(s.drop_first());
        if first_non_hex(s) is None {
            assert forall|i: int| 0 <= i < s.len() implies is_hex_char(#[trigger] s[i]) by {
                if i > 0 {
                    assert(s.drop_first()[i - 1] == s[i]);
                }
            }
        }
        if forall|i: int| 0 <= i < s.len() ==> is_hex_char(#[trigger] s[i]) {
            assert forall|i: int| 0 <= i < s.drop_first().len() implies is_hex_char(#[trigger] s.drop_first()[i]) by {
                assert(s.drop_first()[i] == s[i + 1]);
            }
            assert(is_hex_char(s[0]));
        }
    }
}

/// Text is refused for a character exactly when its digits cannot be read.
pub proof fn lemma_hex_error_kind(s: Seq<char>)
    ensures
        (spec_hex_error(s) is InvalidHexLength) == (hex_nibbles(s) is Some),
{
    lemma_hex_nibbles_some(s);
    lemma_first_non_hex_none(s);
}

/// Decodes hexadecimal text with `rustc_serialize`'s `FromHex` for `str`. The
/// bytes are the digit pairs of the text, high digit first, whitespace (space,
/// CR, LF, tab) skipped. The text is refused at its first character that is no
/// digit nor whitespace, reported with that character and its byte position,
/// and else when it holds an odd number of digits.
#[verifier::external_body]
fn from_hex(s: &str) -> (r: Result<Vec<u8>, FromHexError>)
    ensures
        match r {
            Ok(v) => spec_from_hex(s@) == Some(v@),
            Err(e) => spec_from_hex(s@) is None && e == spec_hex_error(s@),
        },
{
    match s.from_hex() {
        Ok(v) => Ok(v),
        Err(rustc_serialize::hex::FromHexError::InvalidHexCharacter(c, i)) => Err(FromHexError::InvalidHexCharacter(c, i)),
        Err(rustc_serialize::hex::FromHexError::InvalidHexLength) => Err(FromHexError::InvalidHexLength),
    }
}

/// The text that a 256-bit hexadecimal number is decoded from: a text of odd
/// byte length gets a leading `0`.
pub open spec fn hex_padded(s: Seq<char>) -> Seq<char> {
    if vstd::utf8::encode_utf8(s).len() % 2 == 0 {
        s
    } else {
        seq!['0'] + s
    }
}

/// The big-endian bytes of the 256-bit number that hexadecimal text denotes.
pub open spec fn spec_u256_hex(s: Seq<char>) -> Option<Seq<u8>> {
    spec_from_hex(hex_padded(s))
}

/// Whether the hexadecimal text, if it denotes a number at all, denotes one
/// of at most 32 bytes.
pub open spec fn hex_fits_u256(s: Seq<char>) -> bool {
    spec_u256_hex(s) matches Some(b) ==> b.len() <= 32
}

/// Decodes hexadecimal text as the bytes of a 256-bit number: text of odd byte
/// length gets a leading `0`.
fn from_hex_padded(s: &str) -> (r: Result<Vec<u8>, FromHexError>)
    ensures
        match r {
            Ok(v) => spec_u256_hex(s@) == Some(v@),
            Err(e) => spec_u256_hex(s@) is None && e == spec_hex_error(hex_padded(s@)),
        },
{
    let n = s.as_bytes().len();
    proof {
        assert(n == vstd::utf8::encode_utf8(s@).len());
    }
    if n % 2 == 0 {
        proof {
            assert(hex_padded(s@) == s@);
        }
        from_hex(s)
    } else {
        let mut t: String = "0".to_owned();
        t.append(s);
        proof {
            reveal_strlit("0");
            assert(t@ =~= seq!['0'] + s@);
            assert(hex_padded(s@) == t@);
        }
        let ts: &str = t.as_str();
        from_hex(ts)
    }
}

impl U256 {
    /// Parses a 256-bit number from hexadecimal text (an odd number of
    /// characters reads as if a `0` led). The text must not denote more than 32 bytes.
    pub fn from_str(s: &str) -> (r: Result<U256, FromHexError>)
        requires
            hex_fits_u256(s@),
        ensures
            match r {
                Ok(v) => spec_u256_hex(s@) matches Some(b) && v.value() == be_nat(b),
                Err(e) => spec_u256_hex(s@) is None && e == spec_hex_error(hex_padded(s@)),
            },
    {
        let decoded = from_hex_padded(s);
        match decoded {
            Ok(bytes) => Ok(U256::from_big_endian(bytes.as_slice())),
            Err(e) => Err(e),
        }
    }

    /// Whether hexadecimal text can be handed to `from_str`: it does not denote
    /// a number of more than 32 bytes.
    pub fn hex_fits(s: &str) -> (r: bool)
        ensures
            r == hex_fits_u256(s@),
    {
        let decoded = from_hex_padded(s);
        match decoded {
            Ok(bytes) => bytes.len() <= 32,
            Err(_) => true,
        }
    }
}

/// Command line arguments of the EVM test binary.
#[derive(Debug)]
pub struct Args {
    /// The `stats` command was given.
    pub cmd_stats: bool,
    /// Contract code, hexadecimal.
    pub flag_code: Option<String>,
    /// Supplied gas, hexadecimal.
    pub flag_gas: Option<String>,
    /// Input data, hexadecimal.
    pub flag_input: Option<String>,
}

/// The gas that the `--gas` argument supplies: its hexadecimal number, or
/// 2^256 - 1 when it is absent or not hexadecimal.
pub open spec fn spec_args_gas(flag: Option<Seq<char>>) -> nat {
    match flag {
        Some(g) => match spec_u256_hex(g) {
            Some(b) => be_nat(b),
            None => U256::max_value(),
        },
        None => U256::max_value(),
    }
}

/// The bytes that an optional hexadecimal argument supplies.
pub open spec fn spec_hex_arg(flag: Option<Seq<char>>) -> Option<Seq<u8>> {
    match flag {
        Some(c) => spec_from_hex(c),
        None => None,
    }
}

/// The text of an optional argument.
pub open spec fn arg_text(flag: Option<String>) -> Option<Seq<char>> {
    match flag {
        Some(s) => Some(s@),
        None => None,
    }
}

/// The bytes of an optional result.
pub open spec fn bytes_of(b: Option<Bytes>) -> Option<Seq<u8>> {
    match b {
        Some(v) => Some(v@),
        None => None,
    }
}

impl Args {
    /// Whether the `--gas` argument, if given, does not denote more than 32 bytes.
    pub open spec fn gas_fits(&self) -> bool {
        self.flag_gas matches Some(g) ==> hex_fits_u256(g@)
    }

    /// Whether `gas` can be called: the `--gas` argument, if given, does not
    /// denote more than 32 bytes.
    pub fn gas_in_range(&self) -> (r: bool)
        ensures
            r == self.gas_fits(),
    {
        match &self.flag_gas {
            Some(g) => U256::hex_fits(g.as_str()),
            None => true,
        }
    }

    /// The supplied gas: the hexadecimal `--gas` argument, or the largest
    /// 256-bit number when it is absent or unreadable.
    pub fn gas(&self) -> (r: U256)
        requires
            self.gas_fits(),
        ensures
            r.value() == spec_args_gas(arg_text(self.flag_gas)),
    {
        match &self.flag_gas {
            Some(g) => match U256::from_str(g.as_str()) {
                Ok(v) => v,
                Err(_) => U256::max(),
            },
            None => U256::max(),
        }
    }

    /// The contract code from the hexadecimal `--code` argument; `None` when it
    /// is absent or unreadable (code is required, so the caller then stops).
    pub fn code(&self) -> (r: Option<Bytes>)
        ensures
            bytes_of(r) == spec_hex_arg(arg_text(self.flag_code)),
    {
        match &self.flag_code {
            Some(c) => match from_hex(c.as_str()) {
                Ok(v) => Some(v),
                Err(_) => None,
            },
            None => None,
        }
    }

    /// The input data from the hexadecimal `--input` argument; `None` when it is
    /// absent or unreadable.
    pub fn data(&self) -> (r: Option<Bytes>)
        ensures
            bytes_of(r) == spec_hex_arg(arg_text(self.flag_input)),
    {
        match &self.flag_input {
            Some(d) => match from_hex(d.as_str()) {
                Ok(v) => Some(v),
                Err(_) => None,
            },
            None => None,
        }
    }
}

} // verus!
