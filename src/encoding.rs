//! Text forms of addresses and digests: `0x` followed by lowercase hex.
use vstd::prelude::*;
use vstd::string::StringSliceAdditionalSpecFns;
use crate::types::{Address, LedgerError};

verus! {

#[verifier::external_type_specification]
#[verifier::external_body]
pub struct ExFromHexError(hex::FromHexError);

/// The lowercase hex digit of a value below 16.
pub open spec fn hex_digit(v: int) -> char {
    seq!['0', '1', '2', '3', '4', '5', '6', '7', '8', '9', 'a', 'b', 'c', 'd', 'e', 'f'][v]
}

/// Two lowercase hex digits for each byte, high nibble first.
pub open spec fn hex_text(bytes: Seq<u8>) -> Seq<char> {
    Seq::new(
        2 * bytes.len(),
        |i: int|
            if i % 2 == 0 {
                hex_digit(bytes[i / 2] as int / 16)
            } else {
                hex_digit(bytes[i / 2] as int % 16)
            },
    )
}

/// Whether the byte is an ASCII hex digit of either case.
pub open spec fn is_hex_digit(c: u8) -> bool {
    ||| 48 <= c <= 57
    ||| 65 <= c <= 70
    ||| 97 <= c <= 102
}

/// The value of an ASCII hex digit.
pub open spec fn hex_value(c: u8) -> int {
    if 48 <= c <= 57 {
        c - 48
    } else if 65 <= c <= 70 {
        c - 55
    } else {
        c - 87
    }
}

/// Whether `t` is an even number of hex digits.
pub open spec fn is_hex_text(t: Seq<u8>) -> bool {
    &&& t.len() % 2 == 0
    &&& forall|i: int| 0 <= i < t.len() ==> is_hex_digit(#[trigger] t[i])
}

/// The bytes that the pairs of hex digits in `t` stand for.
pub open spec fn hex_bytes(t: Seq<u8>) -> Seq<u8> {
    Seq::new(
        t.len() / 2,
        |i: int| (16 * hex_value(t[2 * i]) + hex_value(t[2 * i + 1])) as u8,
    )
}

/// `t` without its leading run of `0x` prefixes.
pub open spec fn strip_hex_prefix(t: Seq<u8>) -> Seq<u8>
    decreases t.len(),
{
    if t.len() >= 2 && t[0] == 48 && t[1] == 120 {
        strip_hex_prefix(t.subrange(2, t.len() as int))
    } else {
        t
    }
}

/// The address that the text `t` (as bytes) names, if any: after its
/// leading `0x` prefixes, exactly 40 hex digits of either case.
pub open spec fn address_of_text(t: Seq<u8>) -> Option<Seq<u8>> {
    let digits = strip_hex_prefix(t);
    if is_hex_text(digits) && digits.len() == 40 {
        Some(hex_bytes(digits))
    } else {
        None
    }
}

/// Relies on `hex::encode`: two lowercase hex digits per byte, high
/// nibble first.
#[verifier::external_body]
fn hex_encode(bytes: &[u8]) -> (r: String)
    ensures
        r@ == hex_text(bytes@),
{
    hex::encode(bytes)
}

/// Relies on `hex::decode`: an odd length, or any byte that is not a hex
/// digit of either case, is an error; otherwise each pair of digits
/// becomes one byte, high nibble first.
#[verifier::external_body]
fn hex_decode(text: &[u8]) -> (r: Result<Vec<u8>, hex::FromHexError>)
    ensures
        r is Ok <==> is_hex_text(text@),
        r matches Ok(v) ==> v@ == hex_bytes(text@),
{
    hex::decode(text)
}

/// `0x` followed by the lowercase hex of `bytes`.
fn prefixed_hex(bytes: &[u8]) -> (r: String)
    ensures
        r@ == seq!['0', 'x'] + hex_text(bytes@),
{
    let mut text = String::from_str("0x");
    proof {
        reveal_strlit("0x");
    }
    let digits = hex_encode(bytes);
    text.append(digits.as_str());
    assert(text@ =~= seq!['0', 'x'] + hex_text(bytes@));
    text
}

/// The text form of an address: `0x` and 40 lowercase hex digits.
pub fn address_to_string(addr: &Address) -> (r: String)
    ensures
        r@ == seq!['0', 'x'] + hex_text(addr@),
{
    prefixed_hex(addr.as_slice())
}

/// The text form of a digest: `0x` and 64 lowercase hex digits.
pub fn hash_to_string(hash: &crate::hashing::Hash) -> (r: String)
    ensures
        r@ == seq!['0', 'x'] + hex_text(hash@),
{
    prefixed_hex(hash.as_slice())
}

/// The address named by `text`: any leading `0x` prefixes are dropped,
/// and what is left must be exactly 40 hex digits.
pub fn parse_address(text: &str) -> (r: Result<Address, LedgerError>)
    ensures
        match address_of_text(text.spec_bytes()) {
            Some(bytes) => r matches Ok(a) && a@ == bytes,
            None => r == Err::<Address, LedgerError>(LedgerError::MalformedAddress),
        },
{
    let bytes = text.as_bytes();
    let n = bytes.len();
    let mut start: usize = 0;
    assert(bytes@.subrange(0, n as int) =~= bytes@);
    while n - start >= 2 && bytes[start] == 48 && bytes[start + 1] == 120
        invariant
            bytes@ == text.spec_bytes(),
            n == bytes@.len(),
            start <= n,
            strip_hex_prefix(bytes@.subrange(start as int, n as int)) == strip_hex_prefix(bytes@),
        decreases n - start,
    {
        let ghost t = bytes@.subrange(start as int, n as int);
        assert(t.subrange(2, t.len() as int) =~= bytes@.subrange(start + 2, n as int));
        start = start + 2;
    }
    let rest = &bytes[start..n];
    assert(strip_hex_prefix(rest@) == rest@);
    let decoded = match hex_decode(rest) {
        Ok(v) => v,
        Err(_) => {
            return Err(LedgerError::MalformedAddress);
        },
    };
    if decoded.len() != 20 {
        return Err(LedgerError::MalformedAddress);
    }
    let mut addr: Address = [0u8; 20];
    let mut i: usize = 0;
    while i < 20
        invariant
            i <= 20,
            decoded@.len() == 20,
            addr@.len() == 20,
            forall|k: int| 0 <= k < i ==> addr@[k] == decoded@[k],
        decreases 20 - i,
    {
        addr[i] = decoded[i];
        i = i + 1;
    }
    assert(addr@ =~= decoded@);
    Ok(addr)
}

} // verus!
