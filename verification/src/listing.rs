//! A folder's listing: which entries are shown, in what order, and which
//! page of them a request gets.

use vstd::prelude::*;
use crate::format::{chars_lt, seq_lt};
use crate::media::{guessed_mime, is_media_file, is_media_name, sort_key, sort_key_text};
use crate::text::{chars_of, push_char, push_chars, string_of};

verus! {

/// An entry read from a folder.
pub struct DirEntry {
    pub name: String,
    pub is_dir: bool,
    pub size: u64,
}

/// An entry that is listed, with its path relative to the root and its
/// sort key.
pub struct Child {
    pub name: String,
    pub rel: String,
    pub is_dir: bool,
    pub size: u64,
    pub key: String,
}

pub struct ChildModel {
    pub name: Seq<char>,
    pub rel: Seq<char>,
    pub is_dir: bool,
    pub size: u64,
    pub key: Seq<char>,
}

impl View for Child {
    type V = ChildModel;

    open spec fn view(&self) -> ChildModel {
        ChildModel {
            name: self.name@,
            rel: self.rel@,
            is_dir: self.is_dir,
            size: self.size,
            key: self.key@,
        }
    }
}

/// Folders are always listed; files only when they are audio, video or
/// images.
pub open spec fn is_listed(e: DirEntry) -> bool {
    e.is_dir || is_media_name(e.name@)
}

/// The path of entry `name` of the folder at `rel`.
pub open spec fn child_rel(rel: Seq<char>, name: Seq<char>) -> Seq<char> {
    if rel.len() == 0 {
        name
    } else {
        rel + seq!['/'] + name
    }
}

pub open spec fn child_of(rel: Seq<char>, e: DirEntry) -> ChildModel {
    ChildModel {
        name: e.name@,
        rel: child_rel(rel, e.name@),
        is_dir: e.is_dir,
        size: e.size,
        key: sort_key_text(e.name@),
    }
}

/// The listed entries of the folder at `rel`, in reading order.
pub open spec fn listed_children(rel: Seq<char>, entries: Seq<DirEntry>) -> Seq<ChildModel>
    decreases entries.len(),
{
    if entries.len() == 0 {
        Seq::empty()
    } else {
        let p = listed_children(rel, entries.drop_last());
        if is_listed(entries.last()) {
            p.push(child_of(rel, entries.last()))
        } else {
            p
        }
    }
}

/// The listing order: folders before files, then by sort key, then by name.
pub open spec fn child_lt(a: ChildModel, b: ChildModel) -> bool {
    ||| (a.is_dir && !b.is_dir)
    ||| (a.is_dir == b.is_dir && seq_lt(a.key, b.key))
    ||| (a.is_dir == b.is_dir && a.key == b.key && seq_lt(a.name, b.name))
}

/// `x` inserted into `s` before the first element it precedes, i.e.
/// after every element that does not follow it (stable insertion).
pub open spec fn insert_sorted(s: Seq<ChildModel>, x: ChildModel) -> Seq<ChildModel>
    decreases s.len(),
{
    if s.len() == 0 {
        seq![x]
    } else if child_lt(x, s[0]) {
        seq![x] + s
    } else {
        seq![s[0]] + insert_sorted(s.drop_first(), x)
    }
}

/// The stable sort of `s` in listing order.
pub open spec fn sort_children(s: Seq<ChildModel>) -> Seq<ChildModel>
    decreases s.len(),
{
    if s.len() == 0 {
        Seq::empty()
    } else {
        insert_sorted(sort_children(s.drop_last()), s.last())
    }
}

// ---------------------------------------------------------------------------
// Order facts

proof fn lemma_seq_lt_irrefl(a: Seq<char>)
    ensures
        !seq_lt(a, a),
    decreases a.len(),
{
    if a.len() > 0 {
        lemma_seq_lt_irrefl(a.drop_first());
    }
}

proof fn lemma_seq_lt_trans(a: Seq<char>, b: Seq<char>, c: Seq<char>)
    requires
        seq_lt(a, b),
        seq_lt(b, c),
    ensures
        seq_lt(a, c),
    decreases a.len(),
{
    if a.len() > 0 && b.len() > 0 && c.len() > 0 && a[0] == b[0] && b[0] == c[0] {
        lemma_seq_lt_trans(a.drop_first(), b.drop_first(), c.drop_first());
    }
}

proof fn lemma_seq_lt_asym(a: Seq<char>, b: Seq<char>)
    requires
        seq_lt(a, b),
    ensures
        !seq_lt(b, a),
{
    if seq_lt(b, a) {
        lemma_seq_lt_trans(a, b, a);
        lemma_seq_lt_irrefl(a);
    }
}

proof fn lemma_child_lt_asym(a: ChildModel, b: ChildModel)
    requires
        child_lt(a, b),
    ensures
        !child_lt(b, a),
{
    if a.is_dir == b.is_dir {
        if seq_lt(a.key, b.key) {
            lemma_seq_lt_asym(a.key, b.key);
            if b.key == a.key {
                lemma_seq_lt_irrefl(a.key);
            }
        } else {
            lemma_seq_lt_asym(a.name, b.name);
            lemma_seq_lt_irrefl(a.key);
        }
    }
}

proof fn lemma_child_lt_trans(a: ChildModel, b: ChildModel, c: ChildModel)
    requires
        child_lt(a, b),
        child_lt(b, c),
    ensures
        child_lt(a, c),
{
    if a.is_dir == b.is_dir && b.is_dir == c.is_dir {
        if seq_lt(a.key, b.key) && seq_lt(b.key, c.key) {
            lemma_seq_lt_trans(a.key, b.key, c.key);
        } else if seq_lt(a.name, b.name) && a.key == b.key && seq_lt(b.name, c.name) && b.key
            == c.key {
            lemma_seq_lt_trans(a.name, b.name, c.name);
        }
    }
}

/// Neither precedes the other in listing order.
pub open spec fn child_tied(a: ChildModel, b: ChildModel) -> bool {
    !child_lt(a, b) && !child_lt(b, a)
}

/// No element is followed by one that precedes it.
pub open spec fn is_sorted(s: Seq<ChildModel>) -> bool {
    forall|i: int, j: int| 0 <= i < j < s.len() ==> !child_lt(#[trigger] s[j], #[trigger] s[i])
}

proof fn lemma_insert_sorted(s: Seq<ChildModel>, x: ChildModel)
    requires
        is_sorted(s),
    ensures
        is_sorted(insert_sorted(s, x)),
        insert_sorted(s, x).to_multiset() == s.to_multiset().insert(x),
        insert_sorted(s, x).len() == s.len() + 1,
    decreases s.len(),
{
    broadcast use vstd::seq_lib::group_to_multiset_ensures;

    if s.len() == 0 {
        assert(seq![x] =~= Seq::<ChildModel>::empty().push(x));
    } else if child_lt(x, s[0]) {
        let r = seq![x] + s;
        assert forall|i: int, j: int| 0 <= i < j < r.len() implies !child_lt(
            #[trigger] r[j],
            #[trigger] r[i],
        ) by {
            if i == 0 {
                lemma_child_lt_asym(x, s[0]);
                if j > 1 {
                    assert(!child_lt(s[j - 1], s[0]));
                    if child_lt(s[j - 1], x) {
                        lemma_child_lt_trans(s[j - 1], x, s[0]);
                    }
                }
            } else {
                assert(r[i] == s[i - 1] && r[j] == s[j - 1]);
            }
        }
        assert(r =~= s.insert(0, x));
        s.insert_ensures(0, x);
    } else {
        let t = s.drop_first();
        assert forall|i: int, j: int| 0 <= i < j < t.len() implies !child_lt(
            #[trigger] t[j],
            #[trigger] t[i],
        ) by {
            assert(t[i] == s[i + 1] && t[j] == s[j + 1]);
        }
        lemma_insert_sorted(t, x);
        let u = insert_sorted(t, x);
        let r = seq![s[0]] + u;
        assert forall|i: int, j: int| 0 <= i < j < r.len() implies !child_lt(
            #[trigger] r[j],
            #[trigger] r[i],
        ) by {
            if i == 0 {
                assert(r[j] == u[j - 1]);
                // every element of u is x or an element of t, none precedes s[0]
                assert(u.to_multiset().count(u[j - 1]) > 0);
                assert(t.to_multiset().insert(x).count(u[j - 1]) > 0);
                if u[j - 1] != x {
                    assert(t.to_multiset().count(u[j - 1]) > 0);
                    assert(t.contains(u[j - 1]));
                    let k = choose|k: int| 0 <= k < t.len() && t[k] == u[j - 1];
                    assert(s[k + 1] == t[k]);
                }
            } else {
                assert(r[i] == u[i - 1] && r[j] == u[j - 1]);
            }
        }
        assert(s =~= seq![s[0]] + t);
        assert((seq![s[0]] + t).to_multiset() =~= t.to_multiset().insert(s[0])) by {
            assert(seq![s[0]] + t =~= t.insert(0, s[0]));
            t.insert_ensures(0, s[0]);
        }
        assert(r =~= u.insert(0, s[0]));
        u.insert_ensures(0, s[0]);
        assert(r.to_multiset() =~= s.to_multiset().insert(x));
    }
}

/// The listing order puts folders first, then sorts by key, then by name:
/// no child of a sorted listing is followed by one that precedes it, and
/// sorting keeps every child exactly once.
pub proof fn lemma_sort_children(s: Seq<ChildModel>)
    ensures
        is_sorted(sort_children(s)),
        sort_children(s).to_multiset() == s.to_multiset(),
        sort_children(s).len() == s.len(),
    decreases s.len(),
{
    broadcast use vstd::seq_lib::group_to_multiset_ensures;

    if s.len() > 0 {
        lemma_sort_children(s.drop_last());
        lemma_insert_sorted(sort_children(s.drop_last()), s.last());
        assert(s =~= s.drop_last().push(s.last()));
    }
}

/// A folder's listing shows every sub-folder and every media file of it,
/// and nothing else: exactly the listed entries, each once per entry.
pub proof fn lemma_listed_children(rel: Seq<char>, entries: Seq<DirEntry>)
    ensures
        forall|i: int|
            0 <= i < entries.len() && is_listed(#[trigger] entries[i]) ==> listed_children(
                rel,
                entries,
            ).contains(child_of(rel, entries[i])),
        forall|k: int|
            #![trigger listed_children(rel, entries)[k]]
            0 <= k < listed_children(rel, entries).len() ==> exists|i: int|
                0 <= i < entries.len() && is_listed(#[trigger] entries[i]) && listed_children(
                    rel,
                    entries,
                )[k] == child_of(rel, entries[i]),
    decreases entries.len(),
{
    if entries.len() > 0 {
        let init = entries.drop_last();
        lemma_listed_children(rel, init);
        let p = listed_children(rel, init);
        let l = listed_children(rel, entries);
        if is_listed(entries.last()) {
            assert(l == p.push(child_of(rel, entries.last())));
        } else {
            assert(l == p);
        }
        assert forall|i: int|
            0 <= i < entries.len() && is_listed(#[trigger] entries[i]) implies l.contains(
            child_of(rel, entries[i]),
        ) by {
            if i < entries.len() - 1 {
                assert(init[i] == entries[i]);
                let j = choose|j: int| 0 <= j < p.len() && p[j] == child_of(rel, init[i]);
                assert(l[j] == p[j]);
            } else {
                assert(l[l.len() - 1] == child_of(rel, entries[i]));
            }
        }
        assert forall|k: int| #![trigger l[k]] 0 <= k < l.len() implies exists|i: int|
            0 <= i < entries.len() && is_listed(#[trigger] entries[i]) && l[k] == child_of(
                rel,
                entries[i],
            ) by {
            if k < p.len() {
                assert(l[k] == p[k]);
                let i = choose|i: int|
                    0 <= i < init.len() && is_listed(#[trigger] init[i]) && p[k] == child_of(rel, init[i]);
                assert(entries[i] == init[i]);
                assert(is_listed(entries[i]) && l[k] == child_of(rel, entries[i]));
            } else {
                let i = entries.len() - 1;
                assert(is_listed(entries[i]) && l[k] == child_of(rel, entries[i]));
            }
        }
    }
}

/// A file whose MIME type, guessed from its name, is audio, video or
/// image.
pub open spec fn has_media_type(name: Seq<char>) -> bool {
    guessed_mime(name) matches Some((t, _)) && (t == seq!['a', 'u', 'd', 'i', 'o'] || t == seq![
        'v',
        'i',
        'd',
        'e',
        'o',
    ] || t == seq!['i', 'm', 'a', 'g', 'e'])
}

/// The sorted listing of a folder shows each of its sub-folders and each
/// of its audio, video and image files, and nothing that is neither.
pub proof fn lemma_listing_shows_folders_and_media(rel: Seq<char>, entries: Seq<DirEntry>)
    ensures
        forall|i: int|
            0 <= i < entries.len() && (entries[i].is_dir || has_media_type(entries[i].name@))
                ==> #[trigger] sort_children(listed_children(rel, entries)).contains(
                child_of(rel, entries[i]),
            ),
        forall|x: ChildModel|
            #[trigger] sort_children(listed_children(rel, entries)).contains(x) ==> exists|i: int|
                0 <= i < entries.len() && (entries[i].is_dir || has_media_type(entries[i].name@))
                    && x == #[trigger] child_of(rel, entries[i]),
{
    broadcast use vstd::seq_lib::group_to_multiset_ensures;

    let l = listed_children(rel, entries);
    let sorted = sort_children(l);
    lemma_listed_children(rel, entries);
    lemma_sort_children(l);
    assert forall|x: ChildModel| sorted.contains(x) <==> l.contains(x) by {
        assert(sorted.to_multiset().count(x) == l.to_multiset().count(x));
    }
    assert forall|i: int|
        0 <= i < entries.len() && (entries[i].is_dir || has_media_type(entries[i].name@))
            implies #[trigger] sorted.contains(child_of(rel, entries[i])) by {
        assert(is_listed(entries[i]));
        assert(l.contains(child_of(rel, entries[i])));
    }
    assert forall|x: ChildModel| #[trigger] sorted.contains(x) implies exists|i: int|
        0 <= i < entries.len() && (entries[i].is_dir || has_media_type(entries[i].name@)) && x
            == #[trigger] child_of(rel, entries[i]) by {
        assert(l.contains(x));
        let k = choose|k: int| 0 <= k < l.len() && l[k] == x;
        assert(l[k] == x);
        let i = choose|i: int|
            0 <= i < entries.len() && is_listed(#[trigger] entries[i]) && l[k] == child_of(rel, entries[i]);
        assert(entries[i].is_dir || has_media_type(entries[i].name@));
    }
}

/// The listing order spelled out: every folder comes before every file;
/// among folders, and among files, sort keys never decrease; entries with
/// the same kind and key are in the order of their names.
pub proof fn lemma_listing_order(s: Seq<ChildModel>)
    ensures
        forall|i: int, j: int|
            0 <= i < j < sort_children(s).len() ==> {
                let a = #[trigger] sort_children(s)[i];
                let b = #[trigger] sort_children(s)[j];
                &&& (b.is_dir ==> a.is_dir)
                &&& (a.is_dir == b.is_dir ==> !seq_lt(b.key, a.key))
                &&& (a.is_dir == b.is_dir && a.key == b.key ==> !seq_lt(b.name, a.name))
            },
{
    lemma_sort_children(s);
}

// ---------------------------------------------------------------------------
// Building the sorted listing

pub open spec fn child_views(v: Seq<Child>) -> Seq<ChildModel> {
    v.map_values(|c: Child| c@)
}

fn child_before(a: &Child, b: &Child) -> (r: bool)
    ensures
        r == child_lt(a@, b@),
{
    if a.is_dir && !b.is_dir {
        return true;
    }
    if a.is_dir != b.is_dir {
        return false;
    }
    let ak = chars_of(a.key.as_str());
    let bk = chars_of(b.key.as_str());
    if chars_lt(&ak, &bk) {
        return true;
    }
    if !crate::format::chars_eq(&ak, &bk) {
        return false;
    }
    chars_lt(&chars_of(a.name.as_str()), &chars_of(b.name.as_str()))
}

proof fn lemma_insert_at(s: Seq<ChildModel>, x: ChildModel, pos: int)
    requires
        0 <= pos <= s.len(),
        forall|k: int| 0 <= k < pos ==> !child_lt(x, #[trigger] s[k]),
        pos < s.len() ==> child_lt(x, s[pos]),
    ensures
        insert_sorted(s, x) == s.insert(pos, x),
    decreases s.len(),
{
    if s.len() == 0 {
        assert(s.insert(pos, x) =~= seq![x]);
    } else if pos == 0 {
        assert(s.insert(0, x) =~= seq![x] + s);
    } else {
        let t = s.drop_first();
        assert forall|k: int| 0 <= k < pos - 1 implies !child_lt(x, #[trigger] t[k]) by {
            assert(t[k] == s[k + 1]);
        }
        lemma_insert_at(t, x, pos - 1);
        assert(s.insert(pos, x) =~= seq![s[0]] + t.insert(pos - 1, x));
    }
}

/// The listed entries of the folder at `rel`, each with its path and sort
/// key, in listing order.
pub fn sorted_children(rel: &str, entries: &Vec<DirEntry>) -> (r: Vec<Child>)
    ensures
        child_views(r@) == sort_children(listed_children(rel@, entries@)),
{
    let mut sorted: Vec<Child> = Vec::new();
    let mut i: usize = 0;
    assert(entries@.take(0) =~= Seq::<DirEntry>::empty());
    assert(child_views(sorted@) =~= Seq::<ChildModel>::empty());
    while i < entries.len()
        invariant
            i <= entries.len(),
            child_views(sorted@) == sort_children(listed_children(rel@, entries@.take(i as int))),
        decreases entries.len() - i,
    {
        let e = &entries[i];
        assert(entries@.take(i + 1).drop_last() =~= entries@.take(i as int));
        assert(entries@.take(i + 1).last() == *e);
        if e.is_dir || is_media_file(e.name.as_str()) {
            let mut crel = String::new();
            if rel.is_empty() {
                crel.append(e.name.as_str());
            } else {
                crel.append(rel);
                push_char(&mut crel, '/');
                crel.append(e.name.as_str());
            }
            let c = Child {
                name: string_of(&chars_of(e.name.as_str())),
                rel: crel,
                is_dir: e.is_dir,
                size: e.size,
                key: sort_key(e.name.as_str()),
            };
            assert(c@ == child_of(rel@, *e)) by {
                assert(c.rel@ =~= child_rel(rel@, e.name@));
            }
            let mut pos: usize = 0;
            while pos < sorted.len() && !child_before(&c, &sorted[pos])
                invariant
                    pos <= sorted.len(),
                    forall|k: int| 0 <= k < pos ==> !child_lt(c@, #[trigger] child_views(sorted@)[k]),
                decreases sorted.len() - pos,
            {
                pos = pos + 1;
            }
            proof {
                lemma_insert_at(child_views(sorted@), c@, pos as int);
            }
            let ghost before = sorted@;
            sorted.insert(pos, c);
            assert(child_views(sorted@) =~= child_views(before).insert(pos as int, c@));
            proof {
                let p = listed_children(rel@, entries@.take(i as int));
                assert(listed_children(rel@, entries@.take(i + 1)) == p.push(c@));
                assert(p.push(c@).drop_last() =~= p);
                assert(sort_children(p.push(c@)) == insert_sorted(sort_children(p), c@));
            }
        } else {
            assert(listed_children(rel@, entries@.take(i + 1)) == listed_children(
                rel@,
                entries@.take(i as int),
            ));
        }
        i = i + 1;
    }
    assert(entries@.take(entries.len() as int) =~= entries@);
    sorted
}

} // verus!
