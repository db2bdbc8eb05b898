//! Keys as hexadecimal text.

use vstd::prelude::*;
use vstd::utf8::encode_utf8;

use crate::utils::text::{hex_char, hex_text};

verus! {

/// The value of a hexadecimal digit, small or capital.
pub open spec fn digit_value(b: u8) -> Option<u8> {
    if 48 <= b <= 57 {
        Some((b - 48) as u8)
    } else if 97 <= b <= 102 {
        Some((b - 87) as u8)
    } else if 65 <= b <= 70 {
        Some((b - 55) as u8)
    } else {
        None
    }
}

/// The bytes that a text of hexadecimal digits stands for, two digits to a byte.
pub open spec fn hex_decoded(text: Seq<u8>) -> Option<Seq<u8>> {
    if text.len() % 2 == 0 && forall|i: int|
        0 <= i < text.len() ==> #[trigger] digit_value(text[i]) is Some {
        Some(
            Seq::new(
                text.len() / 2,
                |i: int|
                    (digit_value(text[2 * i])->Some_0 * 16 + digit_value(
                        text[2 * i + 1],
                    )->Some_0) as u8,
            ),
        )
    } else {
        None
    }
}

/// The words of the `hex` crate on a text that is no hexadecimal.
pub uninterp spec fn hex_complaint(text: Seq<u8>) -> Seq<char>;

/// `hex::decode`: the bytes that the text stands for; of a text of odd length, or with a
/// character that is no digit, what the error says in words.
#[verifier::external_body]
pub(crate) fn decode(text: &str) -> (r: Result<Vec<u8>, String>)
    ensures
        r is Ok <==> hex_decoded(encode_utf8(text@)) is Some,
        r matches Ok(bytes) ==> hex_decoded(encode_utf8(text@)) == Some(bytes@),
        r matches Err(e) ==> e@ == hex_complaint(encode_utf8(text@)),
{
    hex::decode(text).map_err(|e| e.to_string())
}

/// `hex::encode`: two digits, in small letters, for each byte.
#[verifier::external_body]
pub(crate) fn encode(bytes: &[u8]) -> (r: String)
    ensures
        r@ == hex_text(bytes@),
{
    hex::encode(bytes)
}

/// Two digits for each byte, the high one first.
pub proof fn lemma_hex_text_at(bytes: Seq<u8>, i: int)
    requires
        0 <= i < bytes.len(),
    ensures
        hex_text(bytes).len() == 2 * bytes.len(),
        hex_text(bytes)[2 * i] == hex_char((bytes[i] / 16) as int),
        hex_text(bytes)[2 * i + 1] == hex_char((bytes[i] % 16) as int),
    decreases bytes.len(),
{
    let front = bytes.drop_last();
    lemma_hex_text_len(front);
    if i < bytes.len() - 1 {
        lemma_hex_text_at(front, i);
    }
}

/// Two digits for each byte.
pub proof fn lemma_hex_text_len(bytes: Seq<u8>)
    ensures
        hex_text(bytes).len() == 2 * bytes.len(),
    decreases bytes.len(),
{
    if bytes.len() > 0 {
        lemma_hex_text_len(bytes.drop_last());
    }
}

/// Bytes written in hexadecimal are read back as they were.
pub proof fn lemma_hex_round_trip(bytes: Seq<u8>)
    ensures
        hex_decoded(encode_utf8(hex_text(bytes))) == Some(bytes),
{
    let text = hex_text(bytes);
    lemma_hex_text_len(bytes);
    assert forall|k: int| 0 <= k < text.len() implies ({
        let d = if k % 2 == 0 {
            bytes[k / 2] / 16
        } else {
            bytes[k / 2] % 16
        };
        #[trigger] text[k] == hex_char(d as int)
    }) by {
        lemma_hex_text_at(bytes, k / 2);
        assert(k == 2 * (k / 2) || k == 2 * (k / 2) + 1);
    }
    assert(vstd::utf8::is_ascii_chars(text)) by {
        assert forall|k: int| 0 <= k < text.len() implies 0 <= (#[trigger] text[k]) as u32
            <= 127 by {}
    }
    vstd::utf8::is_ascii_chars_encode_utf8(text);
    let coded = encode_utf8(text);
    assert forall|k: int| 0 <= k < coded.len() implies #[trigger] digit_value(coded[k]) == Some(
        (if k % 2 == 0 {
            bytes[k / 2] / 16
        } else {
            bytes[k / 2] % 16
        }) as u8,
    ) by {
        assert(coded[k] == text[k] as u8);
    }
    let back = hex_decoded(coded)->Some_0;
    assert forall|i: int| 0 <= i < bytes.len() implies back[i] == bytes[i] by {
        assert(digit_value(coded[2 * i]) is Some);
        assert(digit_value(coded[2 * i + 1]) is Some);
        assert((2 * i) / 2 == i && (2 * i + 1) / 2 == i);
    }
    assert(back =~= bytes);
}

/// A digit stands for its value, a letter for ten and more, small or capital, and nothing else
/// stands for anything. Two of them make a byte, the high one first.
pub proof fn lemma_hex_digits(b: u8, text: Seq<u8>)
    ensures
        48 <= b <= 57 ==> digit_value(b) == Some((b - 48) as u8),
        65 <= b <= 70 ==> digit_value(b) == Some((b - 65 + 10) as u8),
        97 <= b <= 102 ==> digit_value(b) == Some((b - 97 + 10) as u8),
        !(48 <= b <= 57 || 65 <= b <= 70 || 97 <= b <= 102) ==> digit_value(b) is None,
        text.len() % 2 != 0 ==> hex_decoded(text) is None,
        (exists|i: int| 0 <= i < text.len() && #[trigger] digit_value(text[i]) is None)
            ==> hex_decoded(text) is None,
        hex_decoded(text) matches Some(bytes) ==> {
            &&& 2 * bytes.len() == text.len()
            &&& forall|i: int|
                0 <= i < bytes.len() ==> #[trigger] bytes[i] == digit_value(text[2 * i])->Some_0
                    * 16 + digit_value(text[2 * i + 1])->Some_0
        },
{
    if let Some(bytes) = hex_decoded(text) {
        assert forall|i: int| 0 <= i < bytes.len() implies #[trigger] bytes[i] == digit_value(
            text[2 * i],
        )->Some_0 * 16 + digit_value(text[2 * i + 1])->Some_0 by {
            assert(digit_value(text[2 * i]) is Some);
            assert(digit_value(text[2 * i + 1]) is Some);
        }
    }
}

} // verus!
