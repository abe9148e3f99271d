//! Cursors as opaque tokens: the sixteen bytes of a place, written in
//! base64.

use base64::Engine;
use vstd::prelude::*;
use crate::pagination::CursorPosition;

verus! {

/// The bytes that a place takes as a token.
pub const TOKEN_BYTES: usize = 16;

/// The standard base64 text of a sequence of bytes, with padding.
pub uninterp spec fn base64_text(bytes: Seq<u8>) -> Seq<char>;

/// The bytes that a text stands for in standard base64 with canonical
/// padding, where it stands for any.
pub uninterp spec fn base64_bytes(text: Seq<char>) -> Option<Seq<u8>>;

/// Writes bytes in base64, as `encode` of `base64::engine::general_purpose::STANDARD`
/// does. Trusted: the text is the base64 text of the bytes, and reading that
/// text gives the bytes back. The bound keeps the length of the text within
/// `usize`, outside which `encode` panics.
#[verifier::external_body]
fn base64_encode(bytes: &Vec<u8>) -> (text: String)
    requires
        bytes@.len() <= 0x3fff_ffff,
    ensures
        text@ == base64_text(bytes@),
        base64_bytes(text@) == Some(bytes@),
{
    base64::engine::general_purpose::STANDARD.encode(bytes)
}

/// Reads base64, as `decode` of `base64::engine::general_purpose::STANDARD`
/// does; its error becomes `None`. Trusted: the result is what the text
/// stands for.
#[verifier::external_body]
fn base64_decode(text: &str) -> (bytes: Option<Vec<u8>>)
    ensures
        match bytes {
            Some(b) => base64_bytes(text@) == Some(b@),
            None => base64_bytes(text@) is None,
        },
{
    base64::engine::general_purpose::STANDARD.decode(text).ok()
}

/// The eight bytes of a number, the most significant first.
pub open spec fn be_bytes(x: u64) -> Seq<u8> {
    seq![
        (x / 0x100_0000_0000_0000) as u8,
        ((x / 0x1_0000_0000_0000) % 256) as u8,
        ((x / 0x100_0000_0000) % 256) as u8,
        ((x / 0x1_0000_0000) % 256) as u8,
        ((x / 0x100_0000) % 256) as u8,
        ((x / 0x1_0000) % 256) as u8,
        ((x / 0x100) % 256) as u8,
        (x % 256) as u8,
    ]
}

/// The number that eight bytes from `at` on write, the most significant
/// first.
pub open spec fn be_number(bytes: Seq<u8>, at: int) -> u64 {
    (bytes[at] * 0x100_0000_0000_0000 + bytes[at + 1] * 0x1_0000_0000_0000 + bytes[at + 2] * 0x100_0000_0000
        + bytes[at + 3] * 0x1_0000_0000 + bytes[at + 4] * 0x100_0000 + bytes[at + 5] * 0x1_0000 + bytes[at
        + 6] * 0x100 + bytes[at + 7]) as u64
}

/// The sixteen bytes of a place: its height, then its tie-break.
pub open spec fn position_bytes(position: CursorPosition) -> Seq<u8> {
    be_bytes(position.height) + be_bytes(position.tiebreak)
}

/// The place that sixteen bytes write.
pub open spec fn position_of(bytes: Seq<u8>) -> CursorPosition {
    CursorPosition { height: be_number(bytes, 0), tiebreak: be_number(bytes, 8) }
}

/// The place that a token stands for: the token must be base64 for sixteen
/// bytes.
pub open spec fn cursor_of_token(text: Seq<char>) -> Option<CursorPosition> {
    match base64_bytes(text) {
        Some(bytes) => if bytes.len() == TOKEN_BYTES {
            Some(position_of(bytes))
        } else {
            None
        },
        None => None,
    }
}

/// The bytes of a number write that number.
pub proof fn lemma_be_round_trip(x: u64)
    ensures
        be_bytes(x).len() == 8,
        be_number(be_bytes(x), 0) == x,
{
    let b = be_bytes(x);
    let x0 = x as int;
    let x1 = x0 / 256;
    let x2 = x1 / 256;
    let x3 = x2 / 256;
    let x4 = x3 / 256;
    let x5 = x4 / 256;
    let x6 = x5 / 256;
    let x7 = x6 / 256;
    assert(x1 == x0 / 0x100);
    assert(x2 == x0 / 0x1_0000);
    assert(x3 == x0 / 0x100_0000);
    assert(x4 == x0 / 0x1_0000_0000);
    assert(x5 == x0 / 0x100_0000_0000);
    assert(x6 == x0 / 0x1_0000_0000_0000);
    assert(x7 == x0 / 0x100_0000_0000_0000);
    assert(x7 < 256);
    assert(b[0] == x7);
    assert(b[1] == x6 % 256);
    assert(b[2] == x5 % 256);
    assert(b[3] == x4 % 256);
    assert(b[4] == x3 % 256);
    assert(b[5] == x2 % 256);
    assert(b[6] == x1 % 256);
    assert(b[7] == x0 % 256);
    assert(x6 == x7 * 256 + x6 % 256);
    assert(x5 == x6 * 256 + x5 % 256);
    assert(x4 == x5 * 256 + x4 % 256);
    assert(x3 == x4 * 256 + x3 % 256);
    assert(x2 == x3 * 256 + x2 % 256);
    assert(x1 == x2 * 256 + x1 % 256);
    assert(x0 == x1 * 256 + x0 % 256);
}

/// The bytes of a place write that place.
pub proof fn lemma_position_round_trip(position: CursorPosition)
    ensures
        position_bytes(position).len() == TOKEN_BYTES,
        position_of(position_bytes(position)) == position,
{
    lemma_be_round_trip(position.height);
    lemma_be_round_trip(position.tiebreak);
    let a = be_bytes(position.height);
    let b = be_bytes(position.tiebreak);
    let all = a + b;
    assert forall|i: int| 0 <= i < 8 implies all[i] == a[i] && all[8 + i] == b[i] by {}
    assert(be_number(all, 0) == be_number(a, 0));
    assert(be_number(all, 8) == be_number(b, 0));
}

/// Appends the eight bytes of a number, the most significant first.
fn push_be(bytes: &mut Vec<u8>, x: u64)
    ensures
        final(bytes)@ == old(bytes)@ + be_bytes(x),
{
    let ghost before = bytes@;
    bytes.push((x / 0x100_0000_0000_0000) as u8);
    bytes.push(((x / 0x1_0000_0000_0000) % 256) as u8);
    bytes.push(((x / 0x100_0000_0000) % 256) as u8);
    bytes.push(((x / 0x1_0000_0000) % 256) as u8);
    bytes.push(((x / 0x100_0000) % 256) as u8);
    bytes.push(((x / 0x1_0000) % 256) as u8);
    bytes.push(((x / 0x100) % 256) as u8);
    bytes.push((x % 256) as u8);
    assert(bytes@ =~= before + be_bytes(x));
}

/// The number that the eight bytes from `at` on write.
fn read_be(bytes: &Vec<u8>, at: usize) -> (x: u64)
    requires
        at + 8 <= bytes@.len(),
    ensures
        x == be_number(bytes@, at as int),
{
    let n = bytes.len();
    assert(at + 8 <= n);
    let mut x: u64 = bytes[at] as u64 * 0x100_0000_0000_0000;
    x = x + bytes[at + 1] as u64 * 0x1_0000_0000_0000;
    x = x + bytes[at + 2] as u64 * 0x100_0000_0000;
    x = x + bytes[at + 3] as u64 * 0x1_0000_0000;
    x = x + bytes[at + 4] as u64 * 0x100_0000;
    x = x + bytes[at + 5] as u64 * 0x1_0000;
    x = x + bytes[at + 6] as u64 * 0x100;
    x = x + bytes[at + 7] as u64;
    x
}

impl CursorPosition {
    /// The sixteen bytes of this place: its height, then its tie-break, each
    /// with the most significant byte first.
    pub fn to_bytes(&self) -> (bytes: Vec<u8>)
        ensures
            bytes@ == position_bytes(*self),
            bytes@.len() == TOKEN_BYTES,
            position_of(bytes@) == *self,
    {
        proof {
            lemma_position_round_trip(*self);
        }
        let mut bytes: Vec<u8> = Vec::new();
        push_be(&mut bytes, self.height);
        push_be(&mut bytes, self.tiebreak);
        bytes
    }

    /// The place that the bytes write, where there are sixteen of them.
    pub fn from_bytes(bytes: &Vec<u8>) -> (position: Option<CursorPosition>)
        ensures
            position == if bytes@.len() == TOKEN_BYTES {
                Some(position_of(bytes@))
            } else {
                None
            },
    {
        if bytes.len() != TOKEN_BYTES {
            return None;
        }
        Some(CursorPosition { height: read_be(bytes, 0), tiebreak: read_be(bytes, 8) })
    }
}

/// The token of a place: its sixteen bytes in base64. Decoding the token
/// gives the place back.
pub fn encode_cursor(position: &CursorPosition) -> (token: String)
    ensures
        token@ == base64_text(position_bytes(*position)),
        cursor_of_token(token@) == Some(*position),
{
    let bytes = position.to_bytes();
    base64_encode(&bytes)
}

/// The place that a token stands for, if it is base64 for sixteen bytes.
pub fn decode_cursor(token: &str) -> (position: Option<CursorPosition>)
    ensures
        position == cursor_of_token(token@),
{
    match base64_decode(token) {
        Some(bytes) => CursorPosition::from_bytes(&bytes),
        None => None,
    }
}

} // verus!
