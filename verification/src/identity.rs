//! The server's UPnP identity: its displayed name and its stable UUID.

use vstd::prelude::*;
use std::collections::hash_map::DefaultHasher;
use std::hash::{Hash, Hasher};
use crate::format::{
    dec_digits, hex_pad, is_lower_hex, lemma_hex_pad_digits, lemma_hex_pad_len, pow16, push_decimal,
    push_hex, trim_str,
};
use crate::text::{push_char, push_chars, string_of};

verus! {

/// What `DefaultHasher::new()` yields for `seed` hashed as a `str`.
pub uninterp spec fn default_hash_str(seed: Seq<char>) -> u64;

/// What `DefaultHasher::new()` yields for the pair `(seed, tag)` hashed
/// as a `(&str, u32)` tuple.
pub uninterp spec fn default_hash_str_u32(seed: Seq<char>, tag: u32) -> u64;

/// std's `DefaultHasher`, freshly made with `new`, fed `seed` and finished.
/// std documents that every hasher made by `new` is the same (its keys are
/// not seeded per process), so with one std the result depends on `seed`
/// alone; the algorithm itself is left unspecified (and may change between
/// std releases), so nothing more is stated.
#[verifier::external_body]
fn hash_str(seed: &str) -> (h: u64)
    ensures
        h == default_hash_str(seed@),
{
    let mut hasher = DefaultHasher::new();
    seed.hash(&mut hasher);
    hasher.finish()
}

/// As `hash_str`, for the tuple `(seed, tag)`.
#[verifier::external_body]
fn hash_str_u32(seed: &str, tag: u32) -> (h: u64)
    ensures
        h == default_hash_str_u32(seed@, tag),
{
    let mut hasher = DefaultHasher::new();
    (seed, tag).hash(&mut hasher);
    hasher.finish()
}

/// The UUID text made of two 64-bit hashes: the high 32 bits of `a`, the
/// next 16, the low 16, the high 16 bits of `b`, and its low 48 bits, in
/// lower-case hexadecimal of 8, 4, 4, 4 and 12 digits, joined by `-`.
pub open spec fn uuid_text(a: u64, b: u64) -> Seq<char> {
    hex_pad((a / 0x1_0000_0000) as nat, 8) + seq!['-'] + hex_pad(((a / 0x1_0000) % 0x1_0000) as nat, 4)
        + seq!['-'] + hex_pad((a % 0x1_0000) as nat, 4) + seq!['-'] + hex_pad(
        (b / 0x1_0000_0000_0000) as nat,
        4,
    ) + seq!['-'] + hex_pad((b % 0x1_0000_0000_0000) as nat, 12)
}

/// The magic number mixed into the second hash of the UUID.
pub open spec fn uuid_tag() -> u32 {
    0xC0FF_EE00u32
}

/// The UUID derived from `seed`.
pub open spec fn stable_uuid_text(seed: Seq<char>) -> Seq<char> {
    uuid_text(default_hash_str(seed), default_hash_str_u32(seed, uuid_tag()))
}

/// Formats two 64-bit hashes as a UUID (see `uuid_text`).
pub fn uuid_from_hashes(a: u64, b: u64) -> (r: String)
    ensures
        r@ == uuid_text(a, b),
{
    let mut s = String::new();
    push_hex(&mut s, a / 0x1_0000_0000, 8);
    push_char(&mut s, '-');
    push_hex(&mut s, (a / 0x1_0000) % 0x1_0000, 4);
    push_char(&mut s, '-');
    push_hex(&mut s, a % 0x1_0000, 4);
    push_char(&mut s, '-');
    push_hex(&mut s, b / 0x1_0000_0000_0000, 4);
    push_char(&mut s, '-');
    push_hex(&mut s, b % 0x1_0000_0000_0000, 12);
    assert(s@ =~= uuid_text(a, b));
    s
}

/// A UUID that depends only on `seed`, so that the server keeps the same
/// UPnP identity from one launch to the next.
pub fn stable_uuid(seed: &str) -> (r: String)
    ensures
        r@ == stable_uuid_text(seed@),
{
    let a = hash_str(seed);
    let b = hash_str_u32(seed, 0xC0FF_EE00u32);
    uuid_from_hashes(a, b)
}

/// Every UUID made here has the canonical shape: 36 characters, `-` at
/// indexes 8, 13, 18 and 23, lower-case hexadecimal digits elsewhere.
pub proof fn lemma_uuid_shape(a: u64, b: u64)
    ensures
        uuid_text(a, b).len() == 36,
        forall|i: int|
            0 <= i < 36 ==> if i == 8 || i == 13 || i == 18 || i == 23 {
                #[trigger] uuid_text(a, b)[i] == '-'
            } else {
                is_lower_hex(uuid_text(a, b)[i])
            },
{
    reveal_with_fuel(pow16, 13);
    assert(pow16(4) == 0x1_0000);
    assert(pow16(8) == 0x1_0000_0000);
    assert(pow16(12) == 0x1_0000_0000_0000);
    let x1 = (a / 0x1_0000_0000) as nat;
    let x2 = ((a / 0x1_0000) % 0x1_0000) as nat;
    let x3 = (a % 0x1_0000) as nat;
    let x4 = (b / 0x1_0000_0000_0000) as nat;
    let x5 = (b % 0x1_0000_0000_0000) as nat;
    lemma_hex_pad_len(x1, 8);
    lemma_hex_pad_len(x2, 4);
    lemma_hex_pad_len(x3, 4);
    lemma_hex_pad_len(x4, 4);
    lemma_hex_pad_len(x5, 12);
    lemma_hex_pad_digits(x1, 8);
    lemma_hex_pad_digits(x2, 4);
    lemma_hex_pad_digits(x3, 4);
    lemma_hex_pad_digits(x4, 4);
    lemma_hex_pad_digits(x5, 12);
    let u = uuid_text(a, b);
    let h1 = hex_pad(x1, 8);
    let h2 = hex_pad(x2, 4);
    let h3 = hex_pad(x3, 4);
    let h4 = hex_pad(x4, 4);
    let h5 = hex_pad(x5, 12);
    assert forall|i: int|
        0 <= i < 36 implies if i == 8 || i == 13 || i == 18 || i == 23 {
        #[trigger] u[i] == '-'
    } else {
        is_lower_hex(u[i])
    } by {
        if i < 8 {
            assert(u[i] == h1[i]);
        } else if i == 8 {
        } else if i < 13 {
            assert(u[i] == h2[i - 9]);
        } else if i == 13 {
        } else if i < 18 {
            assert(u[i] == h3[i - 14]);
        } else if i == 18 {
        } else if i < 23 {
            assert(u[i] == h4[i - 19]);
        } else if i == 23 {
        } else {
            assert(u[i] == h5[i - 24]);
        }
    }
}

/// The text from which the UUID is derived: root, port and name joined by
/// `|` (the name is part of the identity, so that a renamed server shows
/// up as a new device).
pub open spec fn identity_seed_text(root: Seq<char>, port: u16, name: Seq<char>) -> Seq<char> {
    root + seq!['|'] + dec_digits(port as nat) + seq!['|'] + name
}

pub fn identity_seed(root: &str, port: u16, name: &str) -> (r: String)
    ensures
        r@ == identity_seed_text(root@, port, name@),
{
    let mut s = String::new();
    s.append(root);
    push_char(&mut s, '|');
    push_decimal(&mut s, port as u64);
    push_char(&mut s, '|');
    s.append(name);
    assert(s@ =~= identity_seed_text(root@, port, name@));
    s
}

/// The name shown to clients: the name given on the command line, trimmed,
/// when not empty; else the root folder's own name when not empty; else
/// `Fichiers`.
pub open spec fn friendly_name_text(given: Option<Seq<char>>, folder: Option<Seq<char>>) -> Seq<char> {
    match given {
        Some(g) if crate::format::trim(g).len() > 0 => crate::format::trim(g),
        _ => match folder {
            Some(f) if f.len() > 0 => f,
            _ => seq!['F', 'i', 'c', 'h', 'i', 'e', 'r', 's'],
        },
    }
}

pub fn friendly_name(given: Option<&str>, folder: Option<&str>) -> (r: String)
    ensures
        r@ == friendly_name_text(given.deep_view(), folder.deep_view()),
{
    if let Some(g) = given {
        let t = trim_str(g);
        if t.len() > 0 {
            return string_of(&t);
        }
    }
    if let Some(f) = folder {
        if !f.is_empty() {
            let mut s = String::new();
            s.append(f);
            assert(s@ =~= f@);
            return s;
        }
    }
    let mut s = String::new();
    let dflt = vec!['F', 'i', 'c', 'h', 'i', 'e', 'r', 's'];
    assert(dflt@ == seq!['F', 'i', 'c', 'h', 'i', 'e', 'r', 's']);
    push_chars(&mut s, &dflt);
    assert(s@ =~= seq!['F', 'i', 'c', 'h', 'i', 'e', 'r', 's']);
    s
}

} // verus!
