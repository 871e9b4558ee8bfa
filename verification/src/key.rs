//! Keys: which texts the table accepts, and when two of them are the same.
//!
//! A key is stored, hashed and compared as its UTF-8 encoding. The encoding
//! must not hold the terminator byte, so that the end of a key is never in
//! doubt.

use vstd::prelude::*;
use vstd::utf8::*;

verus! {

/// The byte that ends a key in the table's key encoding.
pub const KEY_TERMINATOR: u8 = 0;

/// The bytes that stand for a key: its UTF-8 encoding.
pub open spec fn key_bytes(key: Seq<char>) -> Seq<u8> {
    encode_utf8(key)
}

/// A key is valid when no byte of its encoding is the terminator.
pub open spec fn valid_key(key: Seq<char>) -> bool {
    !key_bytes(key).contains(KEY_TERMINATOR)
}

/// The encoding of one character holds a zero byte only if the character is
/// the NUL character.
proof fn lemma_scalar_terminator(c: char)
    ensures
        encode_scalar(c as u32).contains(KEY_TERMINATOR) <==> c == '\0',
{
    let s = c as u32;
    let enc = encode_scalar(s);
    char_is_scalar(c);
    assert(s <= 0x7F ==> ((s & 0x7F) as u8 == 0 <==> s == 0)) by (bit_vector);
    assert((0xC0u8 | ((s >> 6) & 0x1F) as u8) != 0) by (bit_vector);
    assert((0xE0u8 | ((s >> 12) & 0x0F) as u8) != 0) by (bit_vector);
    assert((0xF0u8 | ((s >> 18) & 0x7) as u8) != 0) by (bit_vector);
    assert((0x80u8 | (s & 0x3F) as u8) != 0) by (bit_vector);
    assert((0x80u8 | ((s >> 6) & 0x3F) as u8) != 0) by (bit_vector);
    assert((0x80u8 | ((s >> 12) & 0x3F) as u8) != 0) by (bit_vector);
    if c == '\0' {
        assert(enc[0] == KEY_TERMINATOR);
    }
}

/// A key is valid exactly when it holds no NUL character.
pub proof fn lemma_valid_key_chars(key: Seq<char>)
    ensures
        valid_key(key) <==> !key.contains('\0'),
    decreases key.len(),
{
    if key.len() > 0 {
        let head = encode_scalar(key[0] as u32);
        let rest = key.drop_first();
        lemma_scalar_terminator(key[0]);
        lemma_valid_key_chars(rest);
        assert(key_bytes(key) == head + key_bytes(rest));
        if key_bytes(key).contains(KEY_TERMINATOR) {
            let i = choose|i: int| 0 <= i < key_bytes(key).len() && key_bytes(key)[i] == KEY_TERMINATOR;
            if i < head.len() {
                assert(head[i] == KEY_TERMINATOR);
                assert(key[0] == '\0');
            } else {
                assert(key_bytes(rest)[i - head.len()] == KEY_TERMINATOR);
                let j = choose|j: int| 0 <= j < rest.len() && rest[j] == '\0';
                assert(key[j + 1] == '\0');
            }
        }
        if key.contains('\0') {
            let j = choose|j: int| 0 <= j < key.len() && key[j] == '\0';
            if j == 0 {
                let i = choose|i: int| 0 <= i < head.len() && head[i] == KEY_TERMINATOR;
                assert(key_bytes(key)[i] == KEY_TERMINATOR);
            } else {
                assert(rest[j - 1] == '\0');
                let i = choose|i: int| 0 <= i < key_bytes(rest).len() && key_bytes(rest)[i] == KEY_TERMINATOR;
                assert(key_bytes(key)[head.len() + i] == KEY_TERMINATOR);
            }
        }
    }
}

/// Two keys with the same encoding are the same key.
pub proof fn lemma_key_bytes_injective(a: Seq<char>, b: Seq<char>)
    requires
        key_bytes(a) == key_bytes(b),
    ensures
        a == b,
{
    encode_utf8_decode_utf8(a);
    encode_utf8_decode_utf8(b);
}

/// Whether the table accepts `key`.
pub fn is_valid_key(key: &str) -> (ok: bool)
    ensures
        ok == valid_key(key@),
{
    let bytes = key.as_bytes();
    let mut i: usize = 0;
    while i < bytes.len()
        invariant
            i <= bytes@.len(),
            bytes@ == key_bytes(key@),
            forall|k: int| 0 <= k < i ==> bytes@[k] != KEY_TERMINATOR,
        decreases bytes@.len() - i,
    {
        if bytes[i] == KEY_TERMINATOR {
            return false;
        }
        i += 1;
    }
    true
}

/// Whether `a` and `b` are the same key.
pub fn keys_equal(a: &str, b: &str) -> (same: bool)
    ensures
        same == (a@ == b@),
{
    let x = a.as_bytes();
    let y = b.as_bytes();
    if x.len() != y.len() {
        return false;
    }
    let mut i: usize = 0;
    while i < x.len()
        invariant
            i <= x@.len(),
            x@.len() == y@.len(),
            x@ == key_bytes(a@),
            y@ == key_bytes(b@),
            forall|k: int| 0 <= k < i ==> x@[k] == y@[k],
        decreases x@.len() - i,
    {
        if x[i] != y[i] {
            return false;
        }
        i += 1;
    }
    proof {
        assert(x@ =~= y@);
        lemma_key_bytes_injective(a@, b@);
    }
    true
}

} // verus!
