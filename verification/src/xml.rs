//! XML character escaping, and the textual un-escaping applied to SOAP
//! argument values.

use vstd::prelude::*;
use crate::text::{
    chars_of, flat_map_chars, lemma_flat_map_push, occurs_at, push_char, starts_with, string_of,
};

verus! {

pub open spec fn ent_amp() -> Seq<char> {
    seq!['&', 'a', 'm', 'p', ';']
}

pub open spec fn ent_lt() -> Seq<char> {
    seq!['&', 'l', 't', ';']
}

pub open spec fn ent_gt() -> Seq<char> {
    seq!['&', 'g', 't', ';']
}

pub open spec fn ent_quot() -> Seq<char> {
    seq!['&', 'q', 'u', 'o', 't', ';']
}

pub open spec fn ent_apos() -> Seq<char> {
    seq!['&', 'a', 'p', 'o', 's', ';']
}

/// The five characters that XML escaping rewrites.
pub open spec fn is_xml_special(c: char) -> bool {
    c == '&' || c == '<' || c == '>' || c == '"' || c == '\''
}

/// The escaped form of one character: an entity for the five special
/// characters, the character itself otherwise.
pub open spec fn escape_char(c: char) -> Seq<char> {
    if c == '&' {
        ent_amp()
    } else if c == '<' {
        ent_lt()
    } else if c == '>' {
        ent_gt()
    } else if c == '"' {
        ent_quot()
    } else if c == '\'' {
        ent_apos()
    } else {
        seq![c]
    }
}

pub open spec fn escape_fn() -> spec_fn(char) -> Seq<char> {
    |c: char| escape_char(c)
}

/// XML escaping of a whole text, character by character.
pub open spec fn xml_escape(s: Seq<char>) -> Seq<char> {
    flat_map_chars(s, escape_fn())
}

/// Left-to-right replacement of every non-overlapping occurrence of `pat`
/// (which is not empty) by `rep`.
pub open spec fn replace_all(s: Seq<char>, pat: Seq<char>, rep: Seq<char>) -> Seq<char>
    decreases s.len(),
{
    if s.len() == 0 {
        Seq::empty()
    } else if pat.len() > 0 && starts_with(s, pat) {
        rep + replace_all(s.skip(pat.len() as int), pat, rep)
    } else {
        seq![s[0]] + replace_all(s.drop_first(), pat, rep)
    }
}

/// The un-escaping applied to argument values: the entities for `<`, `>`,
/// `"`, `'` are replaced in turn, then `&amp;` last.
pub open spec fn xml_unescape(s: Seq<char>) -> Seq<char> {
    replace_all(
        replace_all(
            replace_all(
                replace_all(replace_all(s, ent_lt(), seq!['<']), ent_gt(), seq!['>']),
                ent_quot(),
                seq!['"'],
            ),
            ent_apos(),
            seq!['\''],
        ),
        ent_amp(),
        seq!['&'],
    )
}

/// Escapes `&`, `<`, `>`, `"` and `'` as XML entities.
pub fn escape_xml(s: &str) -> (r: String)
    ensures
        r@ == xml_escape(s@),
{
    let v = chars_of(s);
    let mut out = String::new();
    let mut i: usize = 0;
    while i < v.len()
        invariant
            i <= v.len(),
            v@ == s@,
            out@ == xml_escape(v@.take(i as int)),
        decreases v.len() - i,
    {
        let c = v[i];
        if c == '&' {
            push_char(&mut out, '&');
            push_char(&mut out, 'a');
            push_char(&mut out, 'm');
            push_char(&mut out, 'p');
            push_char(&mut out, ';');
        } else if c == '<' {
            push_char(&mut out, '&');
            push_char(&mut out, 'l');
            push_char(&mut out, 't');
            push_char(&mut out, ';');
        } else if c == '>' {
            push_char(&mut out, '&');
            push_char(&mut out, 'g');
            push_char(&mut out, 't');
            push_char(&mut out, ';');
        } else if c == '"' {
            push_char(&mut out, '&');
            push_char(&mut out, 'q');
            push_char(&mut out, 'u');
            push_char(&mut out, 'o');
            push_char(&mut out, 't');
            push_char(&mut out, ';');
        } else if c == '\'' {
            push_char(&mut out, '&');
            push_char(&mut out, 'a');
            push_char(&mut out, 'p');
            push_char(&mut out, 'o');
            push_char(&mut out, 's');
            push_char(&mut out, ';');
        } else {
            push_char(&mut out, c);
        }
        proof {
            assert(v@.take(i + 1) =~= v@.take(i as int).push(c));
            lemma_flat_map_push(v@.take(i as int), c, escape_fn());
            assert(out@ =~= xml_escape(v@.take(i as int)) + escape_char(c));
        }
        i = i + 1;
    }
    assert(v@.take(v.len() as int) =~= v@);
    out
}

/// Replaces every non-overlapping occurrence of `pat`, left to right, by `rep`.
pub fn replace_all_chars(s: &Vec<char>, pat: &Vec<char>, rep: &Vec<char>) -> (r: Vec<char>)
    requires
        pat.len() > 0,
    ensures
        r@ == replace_all(s@, pat@, rep@),
{
    let mut out: Vec<char> = Vec::new();
    let mut i: usize = 0;
    assert(s@.skip(0) =~= s@);
    assert(out@ + replace_all(s@, pat@, rep@) =~= replace_all(s@, pat@, rep@));
    while i < s.len()
        invariant
            i <= s.len(),
            pat.len() > 0,
            out@ + replace_all(s@.skip(i as int), pat@, rep@) == replace_all(s@, pat@, rep@),
        decreases s.len() - i,
    {
        let ghost rest = s@.skip(i as int);
        if occurs_at(s, i, pat) {
            let mut k: usize = 0;
            let ghost before = out@;
            while k < rep.len()
                invariant
                    k <= rep.len(),
                    out@ == before + rep@.take(k as int),
                decreases rep.len() - k,
            {
                out.push(rep[k]);
                k = k + 1;
                assert(out@ =~= before + rep@.take(k as int));
            }
            assert(rep@.take(rep.len() as int) =~= rep@);
            assert(rest.skip(pat.len() as int) =~= s@.skip(i + pat.len()));
            assert(before + replace_all(rest, pat@, rep@) =~= out@ + replace_all(
                s@.skip(i + pat.len()),
                pat@,
                rep@,
            ));
            i = i + pat.len();
        } else {
            let ghost before = out@;
            out.push(s[i]);
            assert(rest.drop_first() =~= s@.skip(i + 1));
            assert(before + replace_all(rest, pat@, rep@) =~= out@ + replace_all(
                s@.skip(i + 1),
                pat@,
                rep@,
            ));
            i = i + 1;
        }
    }
    assert(s@.skip(s.len() as int) =~= Seq::<char>::empty());
    assert(out@ + Seq::<char>::empty() =~= out@);
    out
}

/// Turns `&lt;`, `&gt;`, `&quot;`, `&apos;` and then `&amp;` back into
/// the characters they stand for.
pub fn unescape_xml(s: &str) -> (r: String)
    ensures
        r@ == xml_unescape(s@),
{
    let v = chars_of(s);
    let p_lt = vec!['&', 'l', 't', ';'];
    let p_gt = vec!['&', 'g', 't', ';'];
    let p_quot = vec!['&', 'q', 'u', 'o', 't', ';'];
    let p_apos = vec!['&', 'a', 'p', 'o', 's', ';'];
    let p_amp = vec!['&', 'a', 'm', 'p', ';'];
    let r_lt = vec!['<'];
    let r_gt = vec!['>'];
    let r_quot = vec!['"'];
    let r_apos = vec!['\''];
    let r_amp = vec!['&'];
    assert(p_lt@ == ent_lt() && p_gt@ == ent_gt() && p_quot@ == ent_quot());
    assert(p_apos@ == ent_apos() && p_amp@ == ent_amp());
    assert(r_lt@ == seq!['<'] && r_gt@ == seq!['>'] && r_quot@ == seq!['"']);
    assert(r_apos@ == seq!['\''] && r_amp@ == seq!['&']);
    let a = replace_all_chars(&v, &p_lt, &r_lt);
    let b = replace_all_chars(&a, &p_gt, &r_gt);
    let c = replace_all_chars(&b, &p_quot, &r_quot);
    let d = replace_all_chars(&c, &p_apos, &r_apos);
    let e = replace_all_chars(&d, &p_amp, &r_amp);
    string_of(&e)
}

/// Escaped text holds no `<`, `>`, `"` or `'`.
pub proof fn lemma_escape_no_markup(s: Seq<char>)
    ensures
        forall|i: int|
            0 <= i < xml_escape(s).len() ==> {
                let c = #[trigger] xml_escape(s)[i];
                c != '<' && c != '>' && c != '"' && c != '\''
            },
    decreases s.len(),
{
    if s.len() > 0 {
        lemma_escape_no_markup(s.drop_first());
        let e = escape_char(s[0]);
        let t = xml_escape(s.drop_first());
        assert(xml_escape(s) == e + t);
        assert forall|i: int| 0 <= i < xml_escape(s).len() implies {
            let c = #[trigger] xml_escape(s)[i];
            c != '<' && c != '>' && c != '"' && c != '\''
        } by {
            if i >= e.len() {
                assert(xml_escape(s)[i] == t[i - e.len()]);
            }
        }
    }
}

// ---------------------------------------------------------------------------
// Round trip: un-escaping what escaping produced gives the text back.

/// Whether `c` is still written as an entity after the first `k` of the
/// five replacement passes of `xml_unescape`.
pub open spec fn still_escaped(c: char, k: int) -> bool {
    ||| (c == '<' && k < 1)
    ||| (c == '>' && k < 2)
    ||| (c == '"' && k < 3)
    ||| (c == '\'' && k < 4)
    ||| (c == '&' && k < 5)
}

pub open spec fn stage_char(c: char, k: int) -> Seq<char> {
    if still_escaped(c, k) {
        escape_char(c)
    } else {
        seq![c]
    }
}

pub open spec fn stage_fn(k: int) -> spec_fn(char) -> Seq<char> {
    |c: char| stage_char(c, k)
}

/// The character that pass `k` of `xml_unescape` restores.
pub open spec fn pass_char(k: int) -> char {
    if k == 0 {
        '<'
    } else if k == 1 {
        '>'
    } else if k == 2 {
        '"'
    } else if k == 3 {
        '\''
    } else {
        '&'
    }
}

proof fn lemma_replace_all_at_match(x: Seq<char>, pat: Seq<char>, rep: Seq<char>)
    requires
        pat.len() > 0,
    ensures
        replace_all(pat + x, pat, rep) == rep + replace_all(x, pat, rep),
{
    assert((pat + x).take(pat.len() as int) =~= pat);
    assert((pat + x).skip(pat.len() as int) =~= x);
}

proof fn lemma_replace_all_no_match_prefix(w: Seq<char>, x: Seq<char>, pat: Seq<char>, rep: Seq<char>)
    requires
        pat.len() > 0,
        forall|i: int| 0 <= i < w.len() ==> !#[trigger] starts_with((w + x).skip(i), pat),
    ensures
        replace_all(w + x, pat, rep) == w + replace_all(x, pat, rep),
    decreases w.len(),
{
    if w.len() == 0 {
        assert(w + x =~= x);
        assert(w + replace_all(x, pat, rep) =~= replace_all(x, pat, rep));
    } else {
        assert((w + x).skip(0) =~= w + x);
        assert(!starts_with((w + x).skip(0), pat));
        let t = w.drop_first();
        assert((w + x).drop_first() =~= t + x);
        assert forall|i: int| 0 <= i < t.len() implies !#[trigger] starts_with((t + x).skip(i), pat) by {
            assert((t + x).skip(i) =~= (w + x).skip(i + 1));
            assert(!starts_with((w + x).skip(i + 1), pat));
        }
        lemma_replace_all_no_match_prefix(t, x, pat, rep);
        assert(replace_all(w + x, pat, rep) =~= seq![w[0]] + (t + replace_all(x, pat, rep)));
        assert(w =~= seq![w[0]] + t);
    }
}

proof fn lemma_stage_no_match(c: char, k: int, x: Seq<char>)
    requires
        0 <= k < 5,
        c != pass_char(k),
    ensures
        forall|i: int|
            0 <= i < stage_char(c, k).len() ==> !#[trigger] starts_with(
                (stage_char(c, k) + x).skip(i),
                escape_char(pass_char(k)),
            ),
{
    let w = stage_char(c, k);
    let p = escape_char(pass_char(k));
    assert(p[0] == '&');
    assert(p.len() >= 4);
    assert forall|i: int| 0 <= i < w.len() implies !#[trigger] starts_with((w + x).skip(i), p) by {
        let y = (w + x).skip(i);
        assert(y[0] == w[i]);
        if starts_with(y, p) {
            assert(y.take(p.len() as int)[0] == p[0]);
            assert(w[i] == '&');
            assert(i == 0);
            assert(still_escaped(c, k));
            assert(c == '&');
            assert(y.take(p.len() as int)[1] == p[1]);
            assert(y.take(p.len() as int)[2] == p[2]);
            assert(y[1] == w[1]);
            assert(y[2] == w[2]);
            assert(false);
        }
    }
}

proof fn lemma_stage_pass(s: Seq<char>, k: int)
    requires
        0 <= k < 5,
    ensures
        replace_all(flat_map_chars(s, stage_fn(k)), escape_char(pass_char(k)), seq![pass_char(k)])
            == flat_map_chars(s, stage_fn(k + 1)),
    decreases s.len(),
{
    let p = escape_char(pass_char(k));
    let r = seq![pass_char(k)];
    if s.len() == 0 {
    } else {
        let c = s[0];
        let rest = s.drop_first();
        lemma_stage_pass(rest, k);
        let tail = flat_map_chars(rest, stage_fn(k));
        assert(flat_map_chars(s, stage_fn(k)) == stage_char(c, k) + tail);
        assert(flat_map_chars(s, stage_fn(k + 1)) == stage_char(c, k + 1) + flat_map_chars(
            rest,
            stage_fn(k + 1),
        ));
        if c == pass_char(k) {
            assert(stage_char(c, k) == p);
            assert(stage_char(c, k + 1) == r);
            lemma_replace_all_at_match(tail, p, r);
        } else {
            assert(stage_char(c, k) == stage_char(c, k + 1));
            lemma_stage_no_match(c, k, tail);
            lemma_replace_all_no_match_prefix(stage_char(c, k), tail, p, r);
        }
    }
}

proof fn lemma_stage_last(s: Seq<char>)
    ensures
        flat_map_chars(s, stage_fn(5)) == s,
    decreases s.len(),
{
    if s.len() > 0 {
        lemma_stage_last(s.drop_first());
        assert(s =~= seq![s[0]] + s.drop_first());
    }
}

proof fn lemma_stage_first(s: Seq<char>)
    ensures
        flat_map_chars(s, stage_fn(0)) == xml_escape(s),
    decreases s.len(),
{
    if s.len() > 0 {
        lemma_stage_first(s.drop_first());
        assert(stage_char(s[0], 0) == escape_char(s[0]));
    }
}

/// Un-escaping the escaped form of any text gives that text back.
pub proof fn lemma_unescape_escape(s: Seq<char>)
    ensures
        xml_unescape(xml_escape(s)) == s,
{
    lemma_stage_first(s);
    lemma_stage_pass(s, 0);
    lemma_stage_pass(s, 1);
    lemma_stage_pass(s, 2);
    lemma_stage_pass(s, 3);
    lemma_stage_pass(s, 4);
    lemma_stage_last(s);
}

} // verus!
