//! UPnP object identifiers.  The root folder is the ID `0`; any other
//! folder or file is `/` followed by its relative path, percent-encoded.

use vstd::prelude::*;
use vstd::utf8::{
    decode_utf8, encode_utf8, encode_utf8_decode_utf8, encode_utf8_valid_utf8, leading_byte_width_1,
    valid_utf8,
};
use crate::text::{chars_of, push_char, slice_chars, string_of};

verus! {

// ---------------------------------------------------------------------------
// percent_encoding: the byte encoder and the decoder.

/// Upper-case hexadecimal digit for `n < 16`, as an ASCII byte.
pub open spec fn hex_digit_upper(n: u8) -> u8 {
    if n < 10 {
        (48 + n) as u8
    } else {
        (55 + n) as u8
    }
}

/// `%` followed by the two upper-case hexadecimal digits of `b`.
pub open spec fn percent_triplet(b: u8) -> Seq<char> {
    seq!['%', hex_digit_upper(b / 16) as char, hex_digit_upper(b % 16) as char]
}

/// The byte encoder of `percent_encoding`: `%XX` with upper-case hex digits,
/// for every byte value (its source reads the three characters out of a
/// table laid out in this order).
pub assume_specification[ percent_encoding::percent_encode_byte ](byte: u8) -> (r: &'static str)
    ensures
        r@ == percent_triplet(byte),
;

pub open spec fn is_hex_byte(b: u8) -> bool {
    (48 <= b <= 57) || (65 <= b <= 70) || (97 <= b <= 102)
}

pub open spec fn hex_value(b: u8) -> u8 {
    if 48 <= b <= 57 {
        (b - 48) as u8
    } else if 65 <= b <= 70 {
        (b - 55) as u8
    } else {
        (b - 87) as u8
    }
}

/// Percent-decoding of a byte string: every `%` followed by two hexadecimal
/// digits (either case) stands for the byte they spell; every other byte,
/// a lone `%` included, stands for itself.
pub open spec fn percent_decode_bytes(b: Seq<u8>) -> Seq<u8>
    decreases b.len(),
{
    if b.len() == 0 {
        Seq::empty()
    } else if b[0] == 37 && b.len() >= 3 && is_hex_byte(b[1]) && is_hex_byte(b[2]) {
        seq![(hex_value(b[1]) * 16 + hex_value(b[2])) as u8] + percent_decode_bytes(b.skip(3))
    } else {
        seq![b[0]] + percent_decode_bytes(b.drop_first())
    }
}

/// `percent_encoding::percent_decode_str(raw).decode_utf8()`, kept only when
/// it succeeds.  Per the crate's source, the decoder maps the UTF-8 bytes of
/// `raw` as `percent_decode_bytes` says, and `decode_utf8` succeeds exactly
/// when the result is well-formed UTF-8, yielding the text it encodes.
#[verifier::external_body]
fn percent_decode_utf8(raw: &str) -> (r: Option<String>)
    ensures
        r is Some <==> valid_utf8(percent_decode_bytes(encode_utf8(raw@))),
        r matches Some(s) ==> s@ == decode_utf8(percent_decode_bytes(encode_utf8(raw@))),
{
    percent_encoding::percent_decode_str(raw).decode_utf8().ok().map(|c| c.into_owned())
}

// ---------------------------------------------------------------------------
// The ID alphabet.

/// Bytes written as they are in an ID: ASCII letters and digits, and
/// `/`, `-`, `_`, `.`, `~`.  Every other byte is percent-encoded.
pub open spec fn id_keeps(b: u8) -> bool {
    ||| (48 <= b <= 57)
    ||| (65 <= b <= 90)
    ||| (97 <= b <= 122)
    ||| b == 47
    ||| b == 45
    ||| b == 95
    ||| b == 46
    ||| b == 126
}

pub open spec fn id_byte(b: u8) -> Seq<char> {
    if id_keeps(b) {
        seq![b as char]
    } else {
        percent_triplet(b)
    }
}

/// Encoding of a byte string in the ID alphabet.
pub open spec fn id_encode_bytes(b: Seq<u8>) -> Seq<char>
    decreases b.len(),
{
    if b.len() == 0 {
        Seq::empty()
    } else {
        id_byte(b[0]) + id_encode_bytes(b.drop_first())
    }
}

/// The ID of the object at relative path `rel`.
pub open spec fn id_of(rel: Seq<char>) -> Seq<char> {
    if rel.len() == 0 {
        seq!['0']
    } else {
        seq!['/'] + id_encode_bytes(encode_utf8(rel))
    }
}

/// The relative path that an ID names, if it decodes.
pub open spec fn rel_of_id(id: Seq<char>) -> Option<Seq<char>> {
    if id == seq!['0'] || id.len() == 0 {
        Some(Seq::empty())
    } else {
        let raw = if id[0] == '/' {
            id.drop_first()
        } else {
            id
        };
        let bytes = percent_decode_bytes(encode_utf8(raw));
        if valid_utf8(bytes) {
            Some(decode_utf8(bytes))
        } else {
            None
        }
    }
}

proof fn lemma_id_encode_push(b: Seq<u8>, x: u8)
    ensures
        id_encode_bytes(b.push(x)) == id_encode_bytes(b) + id_byte(x),
    decreases b.len(),
{
    if b.len() == 0 {
        assert(b.push(x).drop_first() =~= Seq::<u8>::empty());
        assert(b.push(x)[0] == x);
        assert(id_encode_bytes(Seq::<u8>::empty()) == Seq::<char>::empty());
        assert(id_encode_bytes(b.push(x)) == id_byte(x) + id_encode_bytes(Seq::<u8>::empty()));
        assert(id_encode_bytes(b.push(x)) =~= id_byte(x));
        assert(id_encode_bytes(b) + id_byte(x) =~= id_byte(x));
    } else {
        assert(b.push(x).drop_first() =~= b.drop_first().push(x));
        lemma_id_encode_push(b.drop_first(), x);
        assert(id_encode_bytes(b.push(x)) =~= id_byte(b[0]) + (id_encode_bytes(b.drop_first())
            + id_byte(x)));
    }
}

/// Appends the ID-alphabet encoding of `bytes` to `out`.
pub fn push_id_encoded(out: &mut String, bytes: &[u8])
    ensures
        final(out)@ == old(out)@ + id_encode_bytes(bytes@),
{
    let ghost start = out@;
    let mut i: usize = 0;
    while i < bytes.len()
        invariant
            i <= bytes.len(),
            out@ == start + id_encode_bytes(bytes@.take(i as int)),
        decreases bytes.len() - i,
    {
        let b = bytes[i];
        let keep = (48 <= b && b <= 57) || (65 <= b && b <= 90) || (97 <= b && b <= 122) || b == 47
            || b == 45 || b == 95 || b == 46 || b == 126;
        if keep {
            push_char(out, b as char);
        } else {
            let t = percent_encoding::percent_encode_byte(b);
            out.append(t);
        }
        proof {
            assert(bytes@.take(i + 1) =~= bytes@.take(i as int).push(b));
            lemma_id_encode_push(bytes@.take(i as int), b);
        }
        i = i + 1;
        assert(out@ =~= start + id_encode_bytes(bytes@.take(i as int)));
    }
    assert(bytes@.take(bytes.len() as int) =~= bytes@);
}

/// The ID of the object at relative path `rel`: `0` for the root, else `/`
/// and the percent-encoded path (so that a folder named `0` cannot be
/// mistaken for the root).
pub fn id_for(rel: &str) -> (r: String)
    ensures
        r@ == id_of(rel@),
{
    let mut out = String::new();
    if rel.is_empty() {
        push_char(&mut out, '0');
        assert(out@ =~= seq!['0']);
    } else {
        push_char(&mut out, '/');
        push_id_encoded(&mut out, rel.as_bytes());
    }
    out
}

/// The relative path named by an ID: empty for `0` and for the empty ID,
/// otherwise the percent-decoding of the ID without its leading `/`, when
/// that decoding is well-formed UTF-8.
pub fn rel_for_id(id: &str) -> (r: Option<String>)
    ensures
        r is Some <==> rel_of_id(id@) is Some,
        r matches Some(s) ==> rel_of_id(id@) == Some(s@),
{
    let v = chars_of(id);
    if v.len() == 0 || (v.len() == 1 && v[0] == '0') {
        assert(v.len() == 1 ==> v@ =~= seq![v[0]]);
        return Some(String::new());
    }
    assert(v@ != seq!['0']);
    if v[0] == '/' {
        assert(v@.subrange(1, v@.len() as int) =~= v@.drop_first());
        let raw = string_of(&slice_chars(&v, 1, v.len()));
        percent_decode_utf8(raw.as_str())
    } else {
        percent_decode_utf8(id)
    }
}

// ---------------------------------------------------------------------------
// Parent and name

/// Index of the last `/` in `s`.
pub open spec fn last_slash(s: Seq<char>) -> Option<int>
    decreases s.len(),
{
    if s.len() == 0 {
        None
    } else if s.last() == '/' {
        Some(s.len() - 1)
    } else {
        last_slash(s.drop_last())
    }
}

proof fn lemma_last_slash(s: Seq<char>)
    ensures
        last_slash(s) matches Some(i) ==> 0 <= i < s.len() && s[i] == '/' && forall|j: int|
            i < j < s.len() ==> s[j] != '/',
        last_slash(s) is None ==> forall|j: int| 0 <= j < s.len() ==> s[j] != '/',
    decreases s.len(),
{
    if s.len() > 0 && s.last() != '/' {
        let t = s.drop_last();
        lemma_last_slash(t);
        if let Some(i) = last_slash(s) {
            assert forall|j: int| i < j < s.len() implies s[j] != '/' by {
                if j < t.len() {
                    assert(s[j] == t[j]);
                }
            }
        } else {
            assert forall|j: int| 0 <= j < s.len() implies s[j] != '/' by {
                if j < t.len() {
                    assert(s[j] == t[j]);
                }
            }
        }
    }
}

/// The relative path of the folder holding `rel`: what precedes its last
/// `/`, or the root (empty) when it has none.
pub open spec fn parent_path(rel: Seq<char>) -> Seq<char> {
    match last_slash(rel) {
        Some(i) => rel.take(i),
        None => Seq::empty(),
    }
}

/// The last component of `rel`: what follows its last `/`, or all of it.
pub open spec fn last_name(rel: Seq<char>) -> Seq<char> {
    match last_slash(rel) {
        Some(i) => rel.skip(i + 1),
        None => rel,
    }
}

/// The parent of `p/n` is `p` and its name `n`, for a name `n` without
/// `/`; a path without `/` is a name directly under the root.
pub proof fn lemma_path_parts(p: Seq<char>, n: Seq<char>)
    requires
        !n.contains('/'),
    ensures
        parent_path(p + seq!['/'] + n) == p,
        last_name(p + seq!['/'] + n) == n,
        parent_path(n) == Seq::<char>::empty(),
        last_name(n) == n,
{
    lemma_last_slash(n);
    if last_slash(n) is Some {
        let i = last_slash(n)->0;
        assert(n.contains(n[i]));
    }
    lemma_slash_then_name(p + seq!['/'], n);
    let s = p + seq!['/'] + n;
    assert(s.take(p.len() as int) =~= p);
    assert(s.skip(p.len() as int + 1) =~= n);
}

proof fn lemma_slash_then_name(q: Seq<char>, n: Seq<char>)
    requires
        q.len() > 0,
        q.last() == '/',
        !n.contains('/'),
    ensures
        last_slash(q + n) == Some(q.len() - 1),
    decreases n.len(),
{
    if n.len() == 0 {
        assert(q + n =~= q);
    } else {
        let d = n.drop_last();
        assert(!d.contains('/')) by {
            if d.contains('/') {
                let j = choose|j: int| 0 <= j < d.len() && d[j] == '/';
                assert(n[j] == '/');
            }
        }
        lemma_slash_then_name(q, d);
        assert((q + n).drop_last() =~= q + d);
        assert((q + n).last() == n[n.len() - 1]);
        assert(n.contains(n[n.len() - 1]));
    }
}

fn last_slash_index(v: &Vec<char>) -> (r: Option<usize>)
    ensures
        match last_slash(v@) {
            Some(i) => r == Some(i as usize),
            None => r is None,
        },
{
    let mut k: usize = v.len();
    assert(v@.take(k as int) =~= v@);
    while k > 0
        invariant
            k <= v.len(),
            last_slash(v@) == last_slash(v@.take(k as int)),
        decreases k,
    {
        assert(v@.take(k as int).drop_last() =~= v@.take(k - 1));
        if v[k - 1] == '/' {
            return Some(k - 1);
        }
        k = k - 1;
    }
    None
}

/// The relative path of the folder holding `rel`.
pub fn parent_of(rel: &str) -> (r: String)
    ensures
        r@ == parent_path(rel@),
{
    let v = chars_of(rel);
    proof {
        lemma_last_slash(v@);
    }
    match last_slash_index(&v) {
        Some(i) => string_of(&slice_chars(&v, 0, i)),
        None => {
            let e = String::new();
            assert(e@ =~= parent_path(rel@));
            e
        },
    }
}

/// The last component of `rel` (its file or folder name).
pub fn name_of(rel: &str) -> (r: String)
    ensures
        r@ == last_name(rel@),
{
    let v = chars_of(rel);
    proof {
        lemma_last_slash(v@);
    }
    match last_slash_index(&v) {
        Some(i) => {
            assert(v@.subrange(i + 1, v.len() as int) =~= v@.skip(i + 1));
            string_of(&slice_chars(&v, i + 1, v.len()))
        },
        None => string_of(&v),
    }
}

/// A path is its parent, `/` and its name; the name holds no `/`.
pub proof fn lemma_parent_name(rel: Seq<char>)
    ensures
        last_slash(rel) is Some ==> rel == parent_path(rel) + seq!['/'] + last_name(rel),
        last_slash(rel) is None ==> rel == last_name(rel) && parent_path(rel).len() == 0,
        forall|j: int| 0 <= j < last_name(rel).len() ==> last_name(rel)[j] != '/',
{
    lemma_last_slash(rel);
    if let Some(i) = last_slash(rel) {
        assert(rel =~= rel.take(i) + seq!['/'] + rel.skip(i + 1));
    }
}

// ---------------------------------------------------------------------------
// Round trip: the ID of a path decodes back to that path.

/// The bytes of `id_byte(b)` (all of them ASCII).
spec fn id_raw_byte(b: u8) -> Seq<u8> {
    if id_keeps(b) {
        seq![b]
    } else {
        seq![37u8, hex_digit_upper(b / 16), hex_digit_upper(b % 16)]
    }
}

spec fn id_encode_raw(b: Seq<u8>) -> Seq<u8>
    decreases b.len(),
{
    if b.len() == 0 {
        Seq::empty()
    } else {
        id_raw_byte(b[0]) + id_encode_raw(b.drop_first())
    }
}

proof fn lemma_encode_utf8_concat(a: Seq<char>, b: Seq<char>)
    ensures
        encode_utf8(a + b) == encode_utf8(a) + encode_utf8(b),
    decreases a.len(),
{
    if a.len() == 0 {
        assert(a + b =~= b);
        assert(encode_utf8(a) + encode_utf8(b) =~= encode_utf8(b));
    } else {
        assert((a + b).drop_first() =~= a.drop_first() + b);
        lemma_encode_utf8_concat(a.drop_first(), b);
        assert(encode_utf8(a + b) =~= encode_utf8(a) + encode_utf8(b));
    }
}

proof fn lemma_encode_ascii_char(x: u8)
    requires
        x < 128,
    ensures
        encode_utf8(seq![x as char]) == seq![x],
{
    assert(seq![x as char].drop_first() =~= Seq::<char>::empty());
    let c = (x as char) as u32;
    assert(c == x as u32);
    assert(leading_byte_width_1(c) == x) by (bit_vector)
        requires
            c == x as u32,
            x < 128,
    ;
    assert(seq![x as char][0] as u32 == c);
    assert(encode_utf8(Seq::<char>::empty()) == Seq::<u8>::empty());
    assert(vstd::utf8::encode_scalar(c) =~= seq![x]);
    assert(encode_utf8(seq![x as char]) == vstd::utf8::encode_scalar(c) + encode_utf8(Seq::<char>::empty()));
    assert(encode_utf8(seq![x as char]) =~= seq![x]);
}

proof fn lemma_encode_id_byte(b: u8)
    ensures
        encode_utf8(id_byte(b)) == id_raw_byte(b),
{
    if id_keeps(b) {
        lemma_encode_ascii_char(b);
    } else {
        let h = hex_digit_upper(b / 16);
        let l = hex_digit_upper(b % 16);
        lemma_encode_ascii_char(37u8);
        lemma_encode_ascii_char(h);
        lemma_encode_ascii_char(l);
        assert(id_byte(b) =~= seq![37u8 as char] + seq![h as char] + seq![l as char]);
        lemma_encode_utf8_concat(seq![37u8 as char] + seq![h as char], seq![l as char]);
        lemma_encode_utf8_concat(seq![37u8 as char], seq![h as char]);
        assert(id_raw_byte(b) =~= seq![37u8] + seq![h] + seq![l]);
    }
}

proof fn lemma_encode_id(b: Seq<u8>)
    ensures
        encode_utf8(id_encode_bytes(b)) == id_encode_raw(b),
    decreases b.len(),
{
    if b.len() > 0 {
        lemma_encode_id(b.drop_first());
        lemma_encode_id_byte(b[0]);
        lemma_encode_utf8_concat(id_byte(b[0]), id_encode_bytes(b.drop_first()));
    }
}

proof fn lemma_decode_raw(b: Seq<u8>)
    ensures
        percent_decode_bytes(id_encode_raw(b)) == b,
    decreases b.len(),
{
    if b.len() > 0 {
        let x = b[0];
        let rest = id_encode_raw(b.drop_first());
        lemma_decode_raw(b.drop_first());
        let raw = id_encode_raw(b);
        assert(raw == id_raw_byte(x) + rest);
        if id_keeps(x) {
            assert(raw[0] == x);
            assert(raw.drop_first() =~= rest);
        } else {
            let h = hex_digit_upper(x / 16);
            let l = hex_digit_upper(x % 16);
            assert(raw[0] == 37 && raw[1] == h && raw[2] == l);
            assert(is_hex_byte(h) && is_hex_byte(l));
            assert(hex_value(h) == x / 16 && hex_value(l) == x % 16);
            assert((hex_value(h) * 16 + hex_value(l)) as u8 == x);
            assert(raw.skip(3) =~= rest);
        }
        assert(b =~= seq![x] + b.drop_first());
    }
}

/// Every relative path is recovered from its ID: decoding the ID of `rel`
/// gives `rel` back.
pub proof fn lemma_id_round_trip(rel: Seq<char>)
    ensures
        rel_of_id(id_of(rel)) == Some(rel),
{
    if rel.len() > 0 {
        let bytes = encode_utf8(rel);
        let id = id_of(rel);
        assert(id[0] == '/');
        assert(id != seq!['0']);
        assert(id.drop_first() =~= id_encode_bytes(bytes));
        lemma_encode_id(bytes);
        lemma_decode_raw(bytes);
        encode_utf8_valid_utf8(rel);
        encode_utf8_decode_utf8(rel);
    }
}

/// Only the root folder has the ID `0`.
pub proof fn lemma_id_root_only(rel: Seq<char>)
    ensures
        (id_of(rel) == seq!['0']) <==> rel.len() == 0,
{
    if rel.len() > 0 {
        assert(id_of(rel)[0] == '/');
    }
}

} // verus!
