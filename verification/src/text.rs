//! Character-level helpers shared by the text-producing modules.

use vstd::prelude::*;

verus! {

/// The characters of `s`, in order.
pub fn chars_of(s: &str) -> (r: Vec<char>)
    ensures
        r@ == s@,
{
    let mut v: Vec<char> = Vec::new();
    for c in it: s.chars()
        invariant
            v@ == it.seq().take(it.index() as int),
            it.seq() == s@,
    {
        v.push(c);
    }
    v
}

/// std's `String::push`: appends one character.
#[verifier::external_body]
pub(crate) fn push_char(s: &mut String, c: char)
    ensures
        final(s)@ == old(s)@.push(c),
{
    s.push(c);
}

/// A string holding exactly the characters of `v`.
pub fn string_of(v: &Vec<char>) -> (r: String)
    ensures
        r@ == v@,
{
    let mut s = String::new();
    let mut i: usize = 0;
    while i < v.len()
        invariant
            i <= v.len(),
            s@ == v@.take(i as int),
        decreases v.len() - i,
    {
        push_char(&mut s, v[i]);
        i = i + 1;
        assert(s@ =~= v@.take(i as int));
    }
    assert(v@.take(v.len() as int) =~= v@);
    s
}

/// Appends every character of `v` to `s`.
pub fn push_chars(s: &mut String, v: &Vec<char>)
    ensures
        final(s)@ == old(s)@ + v@,
{
    let ghost start = s@;
    let mut i: usize = 0;
    while i < v.len()
        invariant
            i <= v.len(),
            s@ == start + v@.take(i as int),
        decreases v.len() - i,
    {
        push_char(s, v[i]);
        i = i + 1;
        assert(s@ =~= start + v@.take(i as int));
    }
    assert(v@.take(v.len() as int) =~= v@);
}

/// The characters of `v` from index `from` up to, not including, `to`.
pub fn slice_chars(v: &Vec<char>, from: usize, to: usize) -> (r: Vec<char>)
    requires
        from <= to <= v.len(),
    ensures
        r@ == v@.subrange(from as int, to as int),
{
    let mut r: Vec<char> = Vec::new();
    let mut i: usize = from;
    while i < to
        invariant
            from <= i <= to <= v.len(),
            r@ == v@.subrange(from as int, i as int),
        decreases to - i,
    {
        r.push(v[i]);
        i = i + 1;
        assert(r@ =~= v@.subrange(from as int, i as int));
    }
    r
}

/// Each character of `s` replaced by its image under `f`, concatenated.
pub open spec fn flat_map_chars(s: Seq<char>, f: spec_fn(char) -> Seq<char>) -> Seq<char>
    decreases s.len(),
{
    if s.len() == 0 {
        Seq::empty()
    } else {
        f(s[0]) + flat_map_chars(s.drop_first(), f)
    }
}

pub proof fn lemma_flat_map_concat(a: Seq<char>, b: Seq<char>, f: spec_fn(char) -> Seq<char>)
    ensures
        flat_map_chars(a + b, f) == flat_map_chars(a, f) + flat_map_chars(b, f),
    decreases a.len(),
{
    if a.len() == 0 {
        assert(a + b =~= b);
        assert(flat_map_chars(a, f) + flat_map_chars(b, f) =~= flat_map_chars(b, f));
    } else {
        assert((a + b).drop_first() =~= a.drop_first() + b);
        lemma_flat_map_concat(a.drop_first(), b, f);
        assert(flat_map_chars(a + b, f) =~= f(a[0]) + (flat_map_chars(a.drop_first(), f)
            + flat_map_chars(b, f)));
    }
}

pub proof fn lemma_flat_map_push(s: Seq<char>, c: char, f: spec_fn(char) -> Seq<char>)
    ensures
        flat_map_chars(s.push(c), f) == flat_map_chars(s, f) + f(c),
{
    assert(s.push(c) =~= s + seq![c]);
    lemma_flat_map_concat(s, seq![c], f);
    assert(seq![c].drop_first() =~= Seq::<char>::empty());
    assert(flat_map_chars(Seq::<char>::empty(), f) == Seq::<char>::empty());
    assert(flat_map_chars(seq![c], f) == f(c) + flat_map_chars(Seq::<char>::empty(), f));
    assert(f(c) + Seq::<char>::empty() =~= f(c));
}

/// `p` is a prefix of `s`.
pub open spec fn starts_with(s: Seq<char>, p: Seq<char>) -> bool {
    p.len() <= s.len() && s.take(p.len() as int) == p
}

/// Does `pat` occur in `s` at index `i`?
pub fn occurs_at(s: &Vec<char>, i: usize, pat: &Vec<char>) -> (r: bool)
    requires
        i <= s.len(),
    ensures
        r == starts_with(s@.skip(i as int), pat@),
{
    if pat.len() > s.len() - i {
        return false;
    }
    let mut j: usize = 0;
    while j < pat.len()
        invariant
            j <= pat.len(),
            i + pat.len() <= s.len(),
            forall|k: int| 0 <= k < j ==> s@[i + k] == pat@[k],
        decreases pat.len() - j,
    {
        if s[i + j] != pat[j] {
            assert(s@.skip(i as int).take(pat.len() as int)[j as int] != pat@[j as int]);
            return false;
        }
        j = j + 1;
    }
    assert(s@.skip(i as int).take(pat.len() as int) =~= pat@);
    true
}

/// Index of the first occurrence of `p` in `s` (`Some(0)` for an empty `p`).
pub open spec fn find(s: Seq<char>, p: Seq<char>) -> Option<int>
    decreases s.len(),
{
    if starts_with(s, p) {
        Some(0)
    } else if s.len() == 0 {
        None
    } else {
        match find(s.drop_first(), p) {
            Some(i) => Some(i + 1),
            None => None,
        }
    }
}

pub proof fn lemma_find_bounds(s: Seq<char>, p: Seq<char>)
    ensures
        find(s, p) matches Some(i) ==> 0 <= i && i + p.len() <= s.len() && starts_with(s.skip(i), p),
        find(s, p) matches Some(i) ==> forall|j: int| 0 <= j < i ==> !#[trigger] starts_with(s.skip(j), p),
        find(s, p) is None ==> forall|j: int| 0 <= j <= s.len() ==> !#[trigger] starts_with(s.skip(j), p),
    decreases s.len(),
{
    assert(s.skip(0) =~= s);
    if !starts_with(s, p) && s.len() > 0 {
        lemma_find_bounds(s.drop_first(), p);
        assert forall|j: int| 1 <= j <= s.len() implies #[trigger] s.skip(j) == s.drop_first().skip(j - 1) by {
            assert(s.skip(j) =~= s.drop_first().skip(j - 1));
        }
    }
}

/// When the first character of `p` does not occur in `w` and `x` starts
/// with `p`, the first occurrence of `p` in `w + x` is right after `w`.
pub proof fn lemma_find_after(w: Seq<char>, x: Seq<char>, p: Seq<char>)
    requires
        p.len() > 0,
        forall|i: int| 0 <= i < w.len() ==> w[i] != p[0],
        starts_with(x, p),
    ensures
        find(w + x, p) == Some(w.len() as int),
    decreases w.len(),
{
    if w.len() == 0 {
        assert(w + x =~= x);
    } else {
        assert((w + x).take(p.len() as int)[0] == w[0]);
        assert(!starts_with(w + x, p));
        assert((w + x).drop_first() =~= w.drop_first() + x);
        lemma_find_after(w.drop_first(), x, p);
    }
}

/// First occurrence of `p` in `s` at or after `from`.
pub fn find_from(s: &Vec<char>, from: usize, p: &Vec<char>) -> (r: Option<usize>)
    requires
        from <= s.len(),
    ensures
        match find(s@.skip(from as int), p@) {
            Some(k) => r == Some((from + k) as usize),
            None => r is None,
        },
{
    let mut i: usize = from;
    proof {
        lemma_find_bounds(s@.skip(from as int), p@);
    }
    while i < s.len()
        invariant
            from <= i <= s.len(),
            forall|j: int| from <= j < i ==> !#[trigger] starts_with(s@.skip(j), p@),
        decreases s.len() - i,
    {
        if occurs_at(s, i, p) {
            proof {
                lemma_find_bounds(s@.skip(from as int), p@);
                assert(s@.skip(from as int).skip(i - from) =~= s@.skip(i as int));
                assert forall|j: int| 0 <= j < i - from implies !#[trigger] starts_with(
                    s@.skip(from as int).skip(j),
                    p@,
                ) by {
                    assert(s@.skip(from as int).skip(j) =~= s@.skip(from + j));
                }
                match find(s@.skip(from as int), p@) {
                    Some(k) => {
                        if k < i - from {
                            assert(s@.skip(from as int).skip(k) =~= s@.skip(from + k));
                        }
                    },
                    None => {},
                }
            }
            return Some(i);
        }
        i = i + 1;
    }
    let found = occurs_at(s, i, p);
    proof {
        lemma_find_bounds(s@.skip(from as int), p@);
        assert(s@.skip(from as int).skip(i - from) =~= s@.skip(i as int));
        assert forall|j: int| 0 <= j < i - from implies !#[trigger] starts_with(
            s@.skip(from as int).skip(j),
            p@,
        ) by {
            assert(s@.skip(from as int).skip(j) =~= s@.skip(from + j));
        }
        match find(s@.skip(from as int), p@) {
            Some(k) => {
                if k < i - from {
                    assert(s@.skip(from as int).skip(k) =~= s@.skip(from + k));
                }
            },
            None => {},
        }
    }
    if found {
        Some(i)
    } else {
        None
    }
}

} // verus!
