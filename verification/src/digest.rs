//! Commitments: the SHA-256 digest of a value followed by a secret, written
//! as lower-case hexadecimal text.

use sha2::Digest;
use vstd::prelude::*;
use vstd::string::StringExecFns;
use vstd::utf8::encode_utf8;

verus! {

/// The SHA-256 digest of a byte string, as the crate `sha2` computes it.
pub uninterp spec fn sha256(data: Seq<u8>) -> Seq<u8>;

/// Calls `sha2::Sha256::digest` (the one-shot form of the trait method
/// `digest::Digest::digest`). Nothing is proved of it: the digest of `data`
/// is taken to be `sha256(data)`, a function of the bytes alone. That it has
/// 32 bytes is the type of what the call returns.
#[verifier::external_body]
fn sha256_digest(data: &[u8]) -> (out: [u8; 32])
    ensures
        out@ == sha256(data@),
{
    sha2::Sha256::digest(data).into()
}

/// The sixteen digits of lower-case hexadecimal, in order.
pub open spec fn hex_digits() -> Seq<char> {
    seq!['0', '1', '2', '3', '4', '5', '6', '7', '8', '9', 'a', 'b', 'c', 'd', 'e', 'f']
}

/// Two digits for each byte, the high half first.
pub open spec fn to_hex(bytes: Seq<u8>) -> Seq<char> {
    Seq::new(
        2 * bytes.len(),
        |i: int|
            if i % 2 == 0 {
                hex_digits()[bytes[i / 2] as int / 16]
            } else {
                hex_digits()[bytes[i / 2] as int % 16]
            },
    )
}

/// The commitment to `value` under `secret`: the digest of the bytes of the
/// value followed, with nothing between them, by the bytes of the secret.
/// Where the value ends is not marked: two pairs that join to the same
/// bytes have the same commitment.
pub open spec fn commitment(value: Seq<char>, secret: Seq<char>) -> Seq<char> {
    to_hex(sha256(encode_utf8(value) + encode_utf8(secret)))
}

fn hex_digit_text(nibble: u8) -> (digit: &'static str)
    requires
        nibble < 16,
    ensures
        digit@ == seq![hex_digits()[nibble as int]],
{
    proof {
        reveal_strlit("0");
        reveal_strlit("1");
        reveal_strlit("2");
        reveal_strlit("3");
        reveal_strlit("4");
        reveal_strlit("5");
        reveal_strlit("6");
        reveal_strlit("7");
        reveal_strlit("8");
        reveal_strlit("9");
        reveal_strlit("a");
        reveal_strlit("b");
        reveal_strlit("c");
        reveal_strlit("d");
        reveal_strlit("e");
        reveal_strlit("f");
    }
    let digit = match nibble {
        0 => "0",
        1 => "1",
        2 => "2",
        3 => "3",
        4 => "4",
        5 => "5",
        6 => "6",
        7 => "7",
        8 => "8",
        9 => "9",
        10 => "a",
        11 => "b",
        12 => "c",
        13 => "d",
        14 => "e",
        _ => "f",
    };
    assert(digit@ =~= seq![hex_digits()[nibble as int]]);
    digit
}

/// Writes `bytes` as lower-case hexadecimal text.
pub fn hex_text(bytes: &[u8]) -> (text: String)
    ensures
        text@ == to_hex(bytes@),
{
    let n: usize = bytes.len();
    let mut text = String::new();
    let mut i: usize = 0;
    while i < n
        invariant
            n == bytes@.len(),
            i <= n,
            text@ == to_hex(bytes@.take(i as int)),
        decreases n - i,
    {
        let byte: u8 = bytes[i];
        let ghost before = text@;
        text.append(hex_digit_text(byte / 16));
        text.append(hex_digit_text(byte % 16));
        proof {
            let grown = bytes@.take(i + 1);
            assert(grown.len() == i + 1);
            assert forall|k: int| 0 <= k < 2 * (i + 1) implies text@[k] == to_hex(grown)[k] by {
                if k < 2 * i {
                    assert(text@[k] == before[k]);
                    assert(bytes@.take(i as int)[k / 2] == grown[k / 2]);
                } else {
                    assert(k / 2 == i);
                    assert(grown[i as int] == byte);
                }
            }
            assert(text@ =~= to_hex(grown));
        }
        i += 1;
    }
    proof {
        assert(bytes@.take(n as int) =~= bytes@);
    }
    text
}

/// The commitment to `value` under `secret`, as it is stored and compared.
pub fn commit_to(value: &str, secret: &str) -> (text: String)
    ensures
        text@ == commitment(value@, secret@),
{
    let mut bytes: Vec<u8> = value.as_bytes_vec();
    let mut tail: Vec<u8> = secret.as_bytes_vec();
    bytes.append(&mut tail);
    let digest: [u8; 32] = sha256_digest(bytes.as_slice());
    hex_text(digest.as_slice())
}

} // verus!
