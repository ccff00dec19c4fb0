//! What a file name tells about a file: its MIME type, whether it is
//! listed, its UPnP class, and the key it is sorted by.

use vstd::prelude::*;
use crate::text::{
    chars_of, flat_map_chars, lemma_flat_map_concat, lemma_flat_map_push, push_char, starts_with,
};

verus! {

/// mime_guess's first guess for a file name, as (top-level type, essence),
/// when its extension is known.
pub uninterp spec fn guessed_mime(name: Seq<char>) -> Option<(Seq<char>, Seq<char>)>;

/// `mime_guess::from_path(name).first()`, read as its top-level type and
/// its essence (`type/subtype`).  The guess comes from a fixed table keyed
/// by the extension, so it depends on `name` alone; what it is for a given
/// extension is the crate's table, not restated here.
#[verifier::external_body]
fn first_mime(name: &str) -> (r: Option<(String, String)>)
    ensures
        r.deep_view() == guessed_mime(name@),
{
    mime_guess::from_path(name).first().map(|m| (m.type_().as_str().to_string(), m.essence_str().to_string()))
}

/// Only audio, video and image files are listed.
pub open spec fn is_media_name(name: Seq<char>) -> bool {
    match guessed_mime(name) {
        Some((t, _)) => t == seq!['a', 'u', 'd', 'i', 'o'] || t == seq!['v', 'i', 'd', 'e', 'o'] || t
            == seq!['i', 'm', 'a', 'g', 'e'],
        None => false,
    }
}

/// Is `name` an audio, video or image file by its extension?
pub fn is_media_file(name: &str) -> (r: bool)
    ensures
        r == is_media_name(name@),
{
    match first_mime(name) {
        Some((t, _)) => {
            let tv = chars_of(t.as_str());
            let audio = vec!['a', 'u', 'd', 'i', 'o'];
            let video = vec!['v', 'i', 'd', 'e', 'o'];
            let image = vec!['i', 'm', 'a', 'g', 'e'];
            assert(audio@ == seq!['a', 'u', 'd', 'i', 'o']);
            assert(video@ == seq!['v', 'i', 'd', 'e', 'o']);
            assert(image@ == seq!['i', 'm', 'a', 'g', 'e']);
            crate::format::chars_eq(&tv, &audio) || crate::format::chars_eq(&tv, &video)
                || crate::format::chars_eq(&tv, &image)
        },
        None => false,
    }
}

pub open spec fn octet_stream() -> Seq<char> {
    "application/octet-stream"@
}

/// The MIME type announced for a file: the guessed essence, else
/// `application/octet-stream`.
pub open spec fn mime_of(name: Seq<char>) -> Seq<char> {
    match guessed_mime(name) {
        Some((_, e)) => e,
        None => octet_stream(),
    }
}

pub fn mime_for(name: &str) -> (r: String)
    ensures
        r@ == mime_of(name@),
{
    match first_mime(name) {
        Some((_, e)) => e,
        None => {
            let mut s = String::new();
            s.append("application/octet-stream");
            assert(s@ =~= octet_stream());
            s
        },
    }
}

pub open spec fn class_video() -> Seq<char> {
    "object.item.videoItem"@
}

pub open spec fn class_audio() -> Seq<char> {
    "object.item.audioItem.musicTrack"@
}

pub open spec fn class_image() -> Seq<char> {
    "object.item.imageItem.photo"@
}

pub open spec fn class_item() -> Seq<char> {
    "object.item"@
}

/// The UPnP class of an item of MIME type `mime`.
pub open spec fn upnp_class_of(mime: Seq<char>) -> Seq<char> {
    if starts_with(mime, seq!['v', 'i', 'd', 'e', 'o', '/']) {
        class_video()
    } else if starts_with(mime, seq!['a', 'u', 'd', 'i', 'o', '/']) {
        class_audio()
    } else if starts_with(mime, seq!['i', 'm', 'a', 'g', 'e', '/']) {
        class_image()
    } else {
        class_item()
    }
}

pub fn upnp_class(mime: &str) -> (r: &'static str)
    ensures
        r@ == upnp_class_of(mime@),
{
    let m = chars_of(mime);
    let video = vec!['v', 'i', 'd', 'e', 'o', '/'];
    let audio = vec!['a', 'u', 'd', 'i', 'o', '/'];
    let image = vec!['i', 'm', 'a', 'g', 'e', '/'];
    assert(video@ == seq!['v', 'i', 'd', 'e', 'o', '/']);
    assert(audio@ == seq!['a', 'u', 'd', 'i', 'o', '/']);
    assert(image@ == seq!['i', 'm', 'a', 'g', 'e', '/']);
    assert(m@.skip(0) =~= m@);
    if crate::text::occurs_at(&m, 0, &video) {
        "object.item.videoItem"
    } else if crate::text::occurs_at(&m, 0, &audio) {
        "object.item.audioItem.musicTrack"
    } else if crate::text::occurs_at(&m, 0, &image) {
        "object.item.imageItem.photo"
    } else {
        "object.item"
    }
}

// ---------------------------------------------------------------------------
// Sort keys

/// std's lower-casing of a text (`str::to_lowercase`).
pub uninterp spec fn lowercase(s: Seq<char>) -> Seq<char>;

/// `str::to_lowercase`: Unicode lower-casing, a function of the text
/// alone; its tables are std's and are not restated here.
#[verifier::external_body]
fn to_lowercase(s: &str) -> (r: String)
    ensures
        r@ == lowercase(s@),
{
    s.to_lowercase()
}

/// Latin letters with diacritics folded to their base letter, and the
/// ligatures `œ`, `æ` spelled out.
pub open spec fn fold_char(c: char) -> Seq<char> {
    if c == '\u{e0}' || c == '\u{e2}' || c == '\u{e4}' || c == '\u{e1}' || c == '\u{e3}' || c
        == '\u{e5}' {
        seq!['a']
    } else if c == '\u{e9}' || c == '\u{e8}' || c == '\u{ea}' || c == '\u{eb}' {
        seq!['e']
    } else if c == '\u{ee}' || c == '\u{ef}' || c == '\u{ed}' || c == '\u{ec}' {
        seq!['i']
    } else if c == '\u{f4}' || c == '\u{f6}' || c == '\u{f3}' || c == '\u{f2}' || c == '\u{f5}' {
        seq!['o']
    } else if c == '\u{f9}' || c == '\u{fb}' || c == '\u{fc}' || c == '\u{fa}' {
        seq!['u']
    } else if c == '\u{e7}' {
        seq!['c']
    } else if c == '\u{f1}' {
        seq!['n']
    } else if c == '\u{fd}' || c == '\u{ff}' {
        seq!['y']
    } else if c == '\u{153}' {
        seq!['o', 'e']
    } else if c == '\u{e6}' {
        seq!['a', 'e']
    } else {
        seq![c]
    }
}

pub open spec fn fold_fn() -> spec_fn(char) -> Seq<char> {
    |c: char| fold_char(c)
}

/// The folding of a whole text.
pub open spec fn fold_accents_text(s: Seq<char>) -> Seq<char> {
    flat_map_chars(s, fold_fn())
}

proof fn lemma_fold_fixed(t: Seq<char>)
    requires
        forall|i: int| 0 <= i < t.len() ==> fold_char(#[trigger] t[i]) == seq![t[i]],
    ensures
        fold_accents_text(t) == t,
    decreases t.len(),
{
    if t.len() > 0 {
        lemma_fold_fixed(t.drop_first());
        assert(fold_char(t[0]) == seq![t[0]]);
        assert(t =~= seq![t[0]] + t.drop_first());
    }
}

/// The accented Latin letters that sort keys fold: à â ä á ã å, é è ê ë,
/// î ï í ì, ô ö ó ò õ, ù û ü ú, ç, ñ, ý ÿ, œ, æ.
pub open spec fn is_folded_letter(c: char) -> bool {
    ||| c == '\u{e0}'
    ||| c == '\u{e2}'
    ||| c == '\u{e4}'
    ||| c == '\u{e1}'
    ||| c == '\u{e3}'
    ||| c == '\u{e5}'
    ||| c == '\u{e9}'
    ||| c == '\u{e8}'
    ||| c == '\u{ea}'
    ||| c == '\u{eb}'
    ||| c == '\u{ee}'
    ||| c == '\u{ef}'
    ||| c == '\u{ed}'
    ||| c == '\u{ec}'
    ||| c == '\u{f4}'
    ||| c == '\u{f6}'
    ||| c == '\u{f3}'
    ||| c == '\u{f2}'
    ||| c == '\u{f5}'
    ||| c == '\u{f9}'
    ||| c == '\u{fb}'
    ||| c == '\u{fc}'
    ||| c == '\u{fa}'
    ||| c == '\u{e7}'
    ||| c == '\u{f1}'
    ||| c == '\u{fd}'
    ||| c == '\u{ff}'
    ||| c == '\u{153}'
    ||| c == '\u{e6}'
}

proof fn lemma_fold_around(pre: Seq<char>, c: char, post: Seq<char>)
    ensures
        fold_accents_text(pre + seq![c] + post) == fold_accents_text(pre) + fold_char(c)
            + fold_accents_text(post),
{
    lemma_flat_map_concat(pre, seq![c], fold_fn());
    lemma_flat_map_concat(pre + seq![c], post, fold_fn());
    lemma_flat_map_push(Seq::<char>::empty(), c, fold_fn());
    assert(Seq::<char>::empty().push(c) =~= seq![c]);
    assert(fold_accents_text(Seq::<char>::empty()) == Seq::<char>::empty());
    assert(Seq::<char>::empty() + fold_char(c) =~= fold_char(c));
}

/// Each accented letter, wherever it stands in a name, is replaced in the
/// sort key by its base letter (`œ` and `æ` by two letters), the rest of
/// the name being folded as it would be on its own.
pub proof fn lemma_fold_accented_letters(pre: Seq<char>, post: Seq<char>)
    ensures
        fold_accents_text(pre + seq!['\u{e0}'] + post) == fold_accents_text(pre) + seq!['a']
            + fold_accents_text(post),
        fold_accents_text(pre + seq!['\u{e2}'] + post) == fold_accents_text(pre) + seq!['a']
            + fold_accents_text(post),
        fold_accents_text(pre + seq!['\u{e4}'] + post) == fold_accents_text(pre) + seq!['a']
            + fold_accents_text(post),
        fold_accents_text(pre + seq!['\u{e1}'] + post) == fold_accents_text(pre) + seq!['a']
            + fold_accents_text(post),
        fold_accents_text(pre + seq!['\u{e3}'] + post) == fold_accents_text(pre) + seq!['a']
            + fold_accents_text(post),
        fold_accents_text(pre + seq!['\u{e5}'] + post) == fold_accents_text(pre) + seq!['a']
            + fold_accents_text(post),
        fold_accents_text(pre + seq!['\u{e9}'] + post) == fold_accents_text(pre) + seq!['e']
            + fold_accents_text(post),
        fold_accents_text(pre + seq!['\u{e8}'] + post) == fold_accents_text(pre) + seq!['e']
            + fold_accents_text(post),
        fold_accents_text(pre + seq!['\u{ea}'] + post) == fold_accents_text(pre) + seq!['e']
            + fold_accents_text(post),
        fold_accents_text(pre + seq!['\u{eb}'] + post) == fold_accents_text(pre) + seq!['e']
            + fold_accents_text(post),
        fold_accents_text(pre + seq!['\u{ee}'] + post) == fold_accents_text(pre) + seq!['i']
            + fold_accents_text(post),
        fold_accents_text(pre + seq!['\u{ef}'] + post) == fold_accents_text(pre) + seq!['i']
            + fold_accents_text(post),
        fold_accents_text(pre + seq!['\u{ed}'] + post) == fold_accents_text(pre) + seq!['i']
            + fold_accents_text(post),
        fold_accents_text(pre + seq!['\u{ec}'] + post) == fold_accents_text(pre) + seq!['i']
            + fold_accents_text(post),
        fold_accents_text(pre + seq!['\u{f4}'] + post) == fold_accents_text(pre) + seq!['o']
            + fold_accents_text(post),
        fold_accents_text(pre + seq!['\u{f6}'] + post) == fold_accents_text(pre) + seq!['o']
            + fold_accents_text(post),
        fold_accents_text(pre + seq!['\u{f3}'] + post) == fold_accents_text(pre) + seq!['o']
            + fold_accents_text(post),
        fold_accents_text(pre + seq!['\u{f2}'] + post) == fold_accents_text(pre) + seq!['o']
            + fold_accents_text(post),
        fold_accents_text(pre + seq!['\u{f5}'] + post) == fold_accents_text(pre) + seq!['o']
            + fold_accents_text(post),
        fold_accents_text(pre + seq!['\u{f9}'] + post) == fold_accents_text(pre) + seq!['u']
            + fold_accents_text(post),
        fold_accents_text(pre + seq!['\u{fb}'] + post) == fold_accents_text(pre) + seq!['u']
            + fold_accents_text(post),
        fold_accents_text(pre + seq!['\u{fc}'] + post) == fold_accents_text(pre) + seq!['u']
            + fold_accents_text(post),
        fold_accents_text(pre + seq!['\u{fa}'] + post) == fold_accents_text(pre) + seq!['u']
            + fold_accents_text(post),
        fold_accents_text(pre + seq!['\u{e7}'] + post) == fold_accents_text(pre) + seq!['c']
            + fold_accents_text(post),
        fold_accents_text(pre + seq!['\u{f1}'] + post) == fold_accents_text(pre) + seq!['n']
            + fold_accents_text(post),
        fold_accents_text(pre + seq!['\u{fd}'] + post) == fold_accents_text(pre) + seq!['y']
            + fold_accents_text(post),
        fold_accents_text(pre + seq!['\u{ff}'] + post) == fold_accents_text(pre) + seq!['y']
            + fold_accents_text(post),
        fold_accents_text(pre + seq!['\u{153}'] + post) == fold_accents_text(pre) + seq!['o', 'e']
            + fold_accents_text(post),
        fold_accents_text(pre + seq!['\u{e6}'] + post) == fold_accents_text(pre) + seq!['a', 'e']
            + fold_accents_text(post),
{
    lemma_fold_around(pre, '\u{e0}', post);
    lemma_fold_around(pre, '\u{e2}', post);
    lemma_fold_around(pre, '\u{e4}', post);
    lemma_fold_around(pre, '\u{e1}', post);
    lemma_fold_around(pre, '\u{e3}', post);
    lemma_fold_around(pre, '\u{e5}', post);
    lemma_fold_around(pre, '\u{e9}', post);
    lemma_fold_around(pre, '\u{e8}', post);
    lemma_fold_around(pre, '\u{ea}', post);
    lemma_fold_around(pre, '\u{eb}', post);
    lemma_fold_around(pre, '\u{ee}', post);
    lemma_fold_around(pre, '\u{ef}', post);
    lemma_fold_around(pre, '\u{ed}', post);
    lemma_fold_around(pre, '\u{ec}', post);
    lemma_fold_around(pre, '\u{f4}', post);
    lemma_fold_around(pre, '\u{f6}', post);
    lemma_fold_around(pre, '\u{f3}', post);
    lemma_fold_around(pre, '\u{f2}', post);
    lemma_fold_around(pre, '\u{f5}', post);
    lemma_fold_around(pre, '\u{f9}', post);
    lemma_fold_around(pre, '\u{fb}', post);
    lemma_fold_around(pre, '\u{fc}', post);
    lemma_fold_around(pre, '\u{fa}', post);
    lemma_fold_around(pre, '\u{e7}', post);
    lemma_fold_around(pre, '\u{f1}', post);
    lemma_fold_around(pre, '\u{fd}', post);
    lemma_fold_around(pre, '\u{ff}', post);
    lemma_fold_around(pre, '\u{153}', post);
    lemma_fold_around(pre, '\u{e6}', post);
}

/// Folding changes no character other than the accented letters.
pub proof fn lemma_fold_keeps_other_letters(pre: Seq<char>, c: char, post: Seq<char>)
    requires
        !is_folded_letter(c),
    ensures
        fold_accents_text(pre + seq![c] + post) == fold_accents_text(pre) + seq![c]
            + fold_accents_text(post),
{
    lemma_fold_around(pre, c, post);
}

/// A folded text holds none of the accented letters that folding removes,
/// so two names that differ only by those accents get the same key.
pub proof fn lemma_fold_removes_accents(s: Seq<char>)
    ensures
        forall|i: int| 0 <= i < fold_accents_text(s).len() ==> !is_folded_letter(
            #[trigger] fold_accents_text(s)[i],
        ),
    decreases s.len(),
{
    if s.len() > 0 {
        let init = s.drop_last();
        let c = s.last();
        lemma_fold_removes_accents(init);
        assert(init.push(c) =~= s);
        lemma_flat_map_push(init, c, fold_fn());
        let a = fold_accents_text(init);
        let x = fold_char(c);
        assert(fold_accents_text(s) == a + x);
        assert forall|j: int| 0 <= j < x.len() implies !is_folded_letter(#[trigger] x[j]) by {}
        assert forall|i: int| 0 <= i < fold_accents_text(s).len() implies !is_folded_letter(
            #[trigger] fold_accents_text(s)[i],
        ) by {
            if i < a.len() {
                assert(fold_accents_text(s)[i] == a[i]);
            } else {
                assert(fold_accents_text(s)[i] == x[i - a.len()]);
            }
        }
    }
}

/// Folding twice folds once: a folded text has nothing left to fold.
pub proof fn lemma_fold_accents_idempotent(s: Seq<char>)
    ensures
        fold_accents_text(fold_accents_text(s)) == fold_accents_text(s),
    decreases s.len(),
{
    if s.len() > 0 {
        let x = fold_char(s[0]);
        let rest = s.drop_first();
        assert(fold_accents_text(s) == x + fold_accents_text(rest));
        lemma_flat_map_concat(x, fold_accents_text(rest), fold_fn());
        lemma_fold_accents_idempotent(rest);
        assert forall|i: int| 0 <= i < x.len() implies fold_char(#[trigger] x[i]) == seq![x[i]] by {
        }
        lemma_fold_fixed(x);
    }
}

/// The sort key of a file name: lower-cased, then diacritics folded, so
/// that « Été » sorts with E rather than after Z.
pub open spec fn sort_key_text(name: Seq<char>) -> Seq<char> {
    fold_accents_text(lowercase(name))
}

/// Folds the diacritics of an already lower-cased text (see `fold_char`).
pub fn fold_accents(lower: &str) -> (r: String)
    ensures
        r@ == fold_accents_text(lower@),
{
    let v = chars_of(lower);
    let mut out = String::new();
    let mut i: usize = 0;
    while i < v.len()
        invariant
            i <= v.len(),
            v@ == lower@,
            out@ == fold_accents_text(v@.take(i as int)),
        decreases v.len() - i,
    {
        let c = v[i];
        if c == '\u{e0}' || c == '\u{e2}' || c == '\u{e4}' || c == '\u{e1}' || c == '\u{e3}' || c
            == '\u{e5}' {
            push_char(&mut out, 'a');
        } else if c == '\u{e9}' || c == '\u{e8}' || c == '\u{ea}' || c == '\u{eb}' {
            push_char(&mut out, 'e');
        } else if c == '\u{ee}' || c == '\u{ef}' || c == '\u{ed}' || c == '\u{ec}' {
            push_char(&mut out, 'i');
        } else if c == '\u{f4}' || c == '\u{f6}' || c == '\u{f3}' || c == '\u{f2}' || c
            == '\u{f5}' {
            push_char(&mut out, 'o');
        } else if c == '\u{f9}' || c == '\u{fb}' || c == '\u{fc}' || c == '\u{fa}' {
            push_char(&mut out, 'u');
        } else if c == '\u{e7}' {
            push_char(&mut out, 'c');
        } else if c == '\u{f1}' {
            push_char(&mut out, 'n');
        } else if c == '\u{fd}' || c == '\u{ff}' {
            push_char(&mut out, 'y');
        } else if c == '\u{153}' {
            push_char(&mut out, 'o');
            push_char(&mut out, 'e');
        } else if c == '\u{e6}' {
            push_char(&mut out, 'a');
            push_char(&mut out, 'e');
        } else {
            push_char(&mut out, c);
        }
        proof {
            assert(v@.take(i + 1) =~= v@.take(i as int).push(c));
            lemma_flat_map_push(v@.take(i as int), c, fold_fn());
            assert(out@ =~= fold_accents_text(v@.take(i as int)) + fold_char(c));
        }
        i = i + 1;
    }
    assert(v@.take(v.len() as int) =~= v@);
    out
}

/// The key by which a file name is sorted.
pub fn sort_key(name: &str) -> (r: String)
    ensures
        r@ == sort_key_text(name@),
{
    let lower = to_lowercase(name);
    fold_accents(lower.as_str())
}

} // verus!
