//! Object ids: hexadecimal text, SHA-1 digests, and the id of an object's
//! bytes.

use vstd::prelude::*;
use crate::text::append_all;

verus! {

/// The sixteen hexadecimal digits, lower case.
pub open spec fn hex_digits() -> Seq<char> {
    seq!['0', '1', '2', '3', '4', '5', '6', '7', '8', '9', 'a', 'b', 'c', 'd', 'e', 'f']
}

/// `bytes` in hexadecimal: two lower-case digits for each byte, the high
/// half first.
pub open spec fn hex_encode(bytes: Seq<u8>) -> Seq<char> {
    Seq::new(
        2 * bytes.len(),
        |i: int|
            if i % 2 == 0 {
                hex_digits()[bytes[i / 2] as int / 16]
            } else {
                hex_digits()[bytes[i / 2] as int % 16]
            },
    )
}

/// The value of a hexadecimal digit of either case.
pub open spec fn hex_value(c: char) -> Option<int> {
    if '0' <= c <= '9' {
        Some(c as int - '0' as int)
    } else if 'a' <= c <= 'f' {
        Some(c as int - 'a' as int + 10)
    } else if 'A' <= c <= 'F' {
        Some(c as int - 'A' as int + 10)
    } else {
        None
    }
}

/// Whether `text` is an even number of hexadecimal digits.
pub open spec fn is_hex(text: Seq<char>) -> bool {
    text.len() % 2 == 0 && forall|i: int| 0 <= i < text.len() ==> hex_value(#[trigger] text[i]) is Some
}

/// The bytes that `text` spells in hexadecimal, where it is such a text.
pub open spec fn hex_decode(text: Seq<char>) -> Option<Seq<u8>> {
    if is_hex(text) {
        Some(
            Seq::new(
                text.len() / 2,
                |i: int| (hex_value(text[2 * i])->0 * 16 + hex_value(text[2 * i + 1])->0) as u8,
            ),
        )
    } else {
        None
    }
}

/// Whether `text` is an object id: forty hexadecimal digits.
pub open spec fn is_object_id(text: Seq<char>) -> bool {
    text.len() == 40 && is_hex(text)
}

/// The SHA-1 digest of `data`.
pub uninterp spec fn sha1_digest(data: Seq<u8>) -> Seq<u8>;

/// `hex::encode`: the bytes as lower-case hexadecimal text, two digits for
/// each byte.
#[verifier::external_body]
pub(crate) fn encode_hex(bytes: &[u8]) -> (text: String)
    ensures
        text@ == hex_encode(bytes@),
{
    hex::encode(bytes)
}

/// `hex::decode`: the bytes that the text spells. It decodes a text of an
/// even number of hexadecimal digits, of either case, and no other.
#[verifier::external_body]
pub(crate) fn decode_hex(text: &str) -> (r: Option<Vec<u8>>)
    ensures
        match r {
            Some(bytes) => hex_decode(text@) == Some(bytes@),
            None => hex_decode(text@) is None,
        },
{
    hex::decode(text).ok()
}

/// `Sha1::digest` of the `sha1` crate: the SHA-1 digest of the data, which
/// has twenty bytes.
#[verifier::external_body]
pub(crate) fn sha1_of(data: &[u8]) -> (digest: Vec<u8>)
    ensures
        digest@ == sha1_digest(data@),
        digest@.len() == 20,
{
    <sha1::Sha1 as sha1::Digest>::digest(data).to_vec()
}

/// `ByteVec::insert_str` of the `bstr` crate, at position 0: puts `head`
/// before the bytes already there.
#[verifier::external_body]
pub(crate) fn prepend_bytes(bytes: &mut Vec<u8>, head: &[u8])
    ensures
        final(bytes)@ == head@ + old(bytes)@,
{
    bstr::ByteVec::insert_str(bytes, 0, head)
}

/// Decoding inverts encoding.
pub proof fn lemma_hex_round_trip(bytes: Seq<u8>)
    ensures
        is_hex(hex_encode(bytes)),
        hex_decode(hex_encode(bytes)) == Some(bytes),
{
    let text = hex_encode(bytes);
    assert forall|i: int| 0 <= i < text.len() implies hex_value(#[trigger] text[i]) is Some by {
        lemma_hex_digit(bytes[i / 2] as int / 16);
        lemma_hex_digit(bytes[i / 2] as int % 16);
    }
    assert forall|i: int| 0 <= i < bytes.len() implies (hex_value(text[2 * i])->0 * 16 + hex_value(
        text[2 * i + 1],
    )->0) as u8 == bytes[i] by {
        lemma_hex_digit(bytes[i] as int / 16);
        lemma_hex_digit(bytes[i] as int % 16);
        assert((2 * i) / 2 == i && (2 * i) % 2 == 0);
        assert((2 * i + 1) / 2 == i && (2 * i + 1) % 2 == 1);
    }
    assert(hex_decode(text)->0 =~= bytes);
}

proof fn lemma_hex_digit(v: int)
    requires
        0 <= v < 16,
    ensures
        hex_value(hex_digits()[v]) == Some(v),
{
}

/// The id that text of twenty encoded bytes makes is an object id.
pub proof fn lemma_encoded_digest_is_object_id(bytes: Seq<u8>)
    requires
        bytes.len() == 20,
    ensures
        is_object_id(hex_encode(bytes)),
{
    lemma_hex_round_trip(bytes);
}

/// `n` in decimal, as ASCII digits.
pub open spec fn decimal(n: nat) -> Seq<u8>
    decreases n,
{
    if n < 10 {
        seq![(48 + n) as u8]
    } else {
        decimal(n / 10).push((48 + n % 10) as u8)
    }
}

/// `n` in decimal, as ASCII digits.
pub fn decimal_digits(n: usize) -> (digits: Vec<u8>)
    ensures
        digits@ == decimal(n as nat),
{
    let mut reversed: Vec<u8> = Vec::new();
    let mut rest: usize = n;
    while rest >= 10
        invariant
            decimal(n as nat) == decimal(rest as nat) + reversed@.reverse(),
        decreases rest,
    {
        let digit: u8 = (rest % 10) as u8 + 48;
        let ghost before = reversed@;
        reversed.push(digit);
        proof {
            assert(reversed@.reverse() =~= seq![digit] + before.reverse());
            assert(decimal(rest as nat) =~= decimal((rest / 10) as nat) + seq![digit]);
        }
        rest = rest / 10;
    }
    let mut digits: Vec<u8> = Vec::new();
    digits.push(rest as u8 + 48);
    let mut i: usize = reversed.len();
    while i > 0
        invariant
            i <= reversed.len(),
            digits@ == decimal(rest as nat) + reversed@.reverse().take(reversed.len() - i),
        decreases i,
    {
        i -= 1;
        digits.push(reversed[i]);
    }
    assert(reversed@.reverse().take(reversed.len() as int) =~= reversed@.reverse());
    digits
}

/// The bytes of a stored object: the word for its kind, a space, the length
/// of the payload in decimal, a NUL, and the payload.
pub open spec fn object_bytes(word: Seq<u8>, payload: Seq<u8>) -> Seq<u8> {
    word + seq![32u8] + decimal(payload.len()) + seq![0u8] + payload
}

/// The id of a stored object: the SHA-1 digest of its bytes, in hexadecimal.
pub open spec fn object_id(word: Seq<u8>, payload: Seq<u8>) -> Seq<char> {
    hex_encode(sha1_digest(object_bytes(word, payload)))
}

/// The header of a stored object whose payload has `len` bytes.
pub fn object_header(word: &[u8], len: usize) -> (header: Vec<u8>)
    ensures
        header@ == word@ + seq![32u8] + decimal(len as nat) + seq![0u8],
{
    let mut header: Vec<u8> = Vec::new();
    append_all(&mut header, word);
    header.push(32);
    let digits = decimal_digits(len);
    append_all(&mut header, digits.as_slice());
    header.push(0);
    header
}

/// Computes the id of the object with the given kind word and payload.
pub fn hash_object(word: &[u8], payload: Vec<u8>) -> (id: String)
    ensures
        id@ == object_id(word@, payload@),
        is_object_id(id@),
{
    let header = object_header(word, payload.len());
    let mut bytes = payload;
    prepend_bytes(&mut bytes, header.as_slice());
    let digest = sha1_of(bytes.as_slice());
    proof {
        lemma_encoded_digest_is_object_id(digest@);
    }
    encode_hex(digest.as_slice())
}

/// Whether `text` is an object id.
pub fn is_valid_object_id(text: &str) -> (ok: bool)
    ensures
        ok == is_object_id(text@),
{
    match decode_hex(text) {
        Some(bytes) => bytes.len() == 20,
        None => false,
    }
}

/// The twenty bytes that an object id spells.
pub fn object_id_bytes(id: &str) -> (r: Option<Vec<u8>>)
    ensures
        match r {
            Some(bytes) => is_object_id(id@) && hex_decode(id@) == Some(bytes@) && bytes@.len()
                == 20,
            None => !is_object_id(id@),
        },
{
    match decode_hex(id) {
        Some(bytes) => if bytes.len() == 20 {
            Some(bytes)
        } else {
            None
        },
        None => None,
    }
}

} // verus!
