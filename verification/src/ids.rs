//! Process and message identifiers.
//!
//! Identifiers are UUIDs; inside the library a UUID is held as the
//! 128-bit number that it denotes (`Uuid::as_u128`), and the `uuid` crate
//! turns it into bytes and text.
use crate::bytes::{be_bytes, be_value, lemma_be_bytes_len, lemma_be_round_trip_u128};
use uuid::Uuid;
use vstd::prelude::*;

verus! {

/// The sixteen bytes of an identifier, most significant first.
pub open spec fn id_bytes(id: u128) -> Seq<u8> {
    be_bytes(id as nat, 16)
}

/// The lowercase hexadecimal digit of `v`, for `v < 16`.
pub open spec fn hex_digit(v: nat) -> char {
    if v < 10 {
        (48 + v) as char
    } else {
        (87 + v) as char
    }
}

/// Two lowercase hexadecimal digits per byte, the high one first.
pub open spec fn hex_text(bytes: Seq<u8>) -> Seq<char> {
    Seq::new(
        2 * bytes.len(),
        |i: int|
            if i % 2 == 0 {
                hex_digit((bytes[i / 2] / 16) as nat)
            } else {
                hex_digit((bytes[i / 2] % 16) as nat)
            },
    )
}

/// The hyphenated text of an identifier: its 32 hexadecimal digits in
/// groups of 8, 4, 4, 4 and 12, joined by `-`.
pub open spec fn uuid_text(id: u128) -> Seq<char> {
    let h = hex_text(id_bytes(id));
    h.subrange(0, 8) + seq!['-'] + h.subrange(8, 12) + seq!['-'] + h.subrange(12, 16) + seq!['-']
        + h.subrange(16, 20) + seq!['-'] + h.subrange(20, 32)
}

/// The identifier's sixteen bytes, as `Uuid::as_bytes` gives them for the
/// UUID `Uuid::from_u128(id)`: `from_u128` builds the UUID from the
/// big-endian bytes of the number, and `as_bytes` returns those bytes.
#[verifier::external_body]
pub(crate) fn uuid_as_bytes(id: u128) -> (bytes: [u8; 16])
    ensures
        bytes@ == id_bytes(id),
{
    *Uuid::from_u128(id).as_bytes()
}

/// The identifier of `Uuid::from_bytes(bytes)`, as `Uuid::as_u128` gives
/// it: the big-endian number that the sixteen bytes denote.
#[verifier::external_body]
pub(crate) fn uuid_from_bytes(bytes: [u8; 16]) -> (id: u128)
    ensures
        id == be_value(bytes@),
{
    Uuid::from_bytes(bytes).as_u128()
}

/// The text that `Uuid::to_string` gives for `Uuid::from_u128(id)`: the
/// hyphenated lowercase form that the crate's `Display` writes.
#[verifier::external_body]
pub(crate) fn uuid_to_text(id: u128) -> (text: String)
    ensures
        text@ == uuid_text(id),
{
    Uuid::from_u128(id).to_string()
}

/// A lowercase hexadecimal digit.
pub open spec fn is_hex_char(c: char) -> bool {
    ('0' <= c && c <= '9') || ('a' <= c && c <= 'f')
}

proof fn lemma_hex_digit(v: nat, w: nat)
    requires
        v < 16,
        w < 16,
    ensures
        is_hex_char(hex_digit(v)),
        hex_digit(v) == hex_digit(w) ==> v == w,
{
}

/// The text of an identifier has 36 characters and opens with a
/// hexadecimal digit.
pub proof fn lemma_uuid_text_shape(id: u128)
    ensures
        uuid_text(id).len() == 36,
        is_hex_char(uuid_text(id)[0]),
{
    lemma_be_bytes_len(id as nat, 16);
    let b = id_bytes(id);
    lemma_hex_digit((b[0] / 16) as nat, 0);
    assert(uuid_text(id)[0] == hex_text(b)[0]);
}

/// Distinct identifiers have distinct texts.
pub proof fn lemma_uuid_text_injective(x: u128, y: u128)
    requires
        uuid_text(x) == uuid_text(y),
    ensures
        x == y,
{
    lemma_be_bytes_len(x as nat, 16);
    lemma_be_bytes_len(y as nat, 16);
    let bx = id_bytes(x);
    let by = id_bytes(y);
    let hx = hex_text(bx);
    let hy = hex_text(by);
    let tx = uuid_text(x);
    let ty = uuid_text(y);
    assert forall|i: int| 0 <= i < 32 implies hx[i] == hy[i] by {
        let p = if i < 8 {
            i
        } else if i < 12 {
            i + 1
        } else if i < 16 {
            i + 2
        } else if i < 20 {
            i + 3
        } else {
            i + 4
        };
        assert(tx[p] == hx[i]);
        assert(ty[p] == hy[i]);
    }
    assert forall|j: int| 0 <= j < 16 implies bx[j] == by[j] by {
        assert(hx[2 * j] == hy[2 * j]);
        assert(hx[2 * j + 1] == hy[2 * j + 1]);
        lemma_hex_digit((bx[j] / 16) as nat, (by[j] / 16) as nat);
        lemma_hex_digit((bx[j] % 16) as nat, (by[j] % 16) as nat);
    }
    assert(bx =~= by);
    lemma_be_round_trip_u128(x);
    lemma_be_round_trip_u128(y);
}

} // verus!
