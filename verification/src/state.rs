//! The server's shared state, and path resolution under the exposed root.

use vstd::prelude::*;
use crate::format::{parse_decimal, parse_unsigned};
use crate::text::{chars_of, string_of};

verus! {

/// What the HTTP, SOAP and SSDP handlers share.
pub struct AppState {
    pub port: u16,
    /// The exposed folder, as path text.
    pub root: String,
    pub friendly_name: String,
    pub uuid: String,
    /// The platform's path separator (`std::path::MAIN_SEPARATOR`): `/`,
    /// or `\` on Windows, where `/` separates too.
    pub separator: char,
}

/// `s` split on every `/` (an empty text gives one empty part).
pub open spec fn split_slash(s: Seq<char>) -> Seq<Seq<char>>
    decreases s.len(),
{
    if s.len() == 0 {
        seq![Seq::empty()]
    } else {
        let p = split_slash(s.drop_last());
        if s.last() == '/' {
            p.push(Seq::empty())
        } else {
            p.update(p.len() - 1, p.last().push(s.last()))
        }
    }
}

/// A path component that `resolve` accepts: not `.` or `..`, and free of
/// `\` and `:` (which would let it name something outside the root).
pub open spec fn component_ok(c: Seq<char>) -> bool {
    &&& c != seq!['.']
    &&& c != seq!['.', '.']
    &&& !c.contains('\\')
    &&& !c.contains(':')
}

/// Is `c` a path separator on the platform whose own separator is `sep`?
pub open spec fn is_separator(c: char, sep: char) -> bool {
    c == '/' || c == sep
}

/// A Windows path that is only a drive, such as `C:`.
pub open spec fn is_bare_drive(p: Seq<char>, sep: char) -> bool {
    &&& sep == '\\'
    &&& p.len() == 2
    &&& p[1] == ':'
    &&& (('a' <= p[0] <= 'z') || ('A' <= p[0] <= 'Z'))
}

/// `PathBuf::push` of a relative component holding no separator, no `:`
/// and no prefix: the platform's separator is inserted unless the path is
/// empty, already ends with a separator, or is a bare Windows drive.
pub open spec fn push_component(p: Seq<char>, c: Seq<char>, sep: char) -> Seq<char> {
    if p.len() > 0 && !is_separator(p.last(), sep) && !is_bare_drive(p, sep) {
        p + seq![sep] + c
    } else {
        p + c
    }
}

/// `root` with the non-empty `parts` pushed in order.
pub open spec fn join_parts(root: Seq<char>, parts: Seq<Seq<char>>, sep: char) -> Seq<char>
    decreases parts.len(),
{
    if parts.len() == 0 {
        root
    } else {
        let p = join_parts(root, parts.drop_last(), sep);
        if parts.last().len() == 0 {
            p
        } else {
            push_component(p, parts.last(), sep)
        }
    }
}

pub open spec fn parts_ok(parts: Seq<Seq<char>>) -> bool {
    forall|k: int| 0 <= k < parts.len() ==> (#[trigger] parts[k]).len() == 0 || component_ok(parts[k])
}

/// The path of `rel` (components separated by `/`, empty ones ignored)
/// under `root`, or none when one of its components is refused.
pub open spec fn resolve_path(root: Seq<char>, rel: Seq<char>, sep: char) -> Option<Seq<char>> {
    let parts = split_slash(rel);
    if parts_ok(parts) {
        Some(join_parts(root, parts, sep))
    } else {
        None
    }
}

proof fn lemma_split_nonempty(s: Seq<char>)
    ensures
        split_slash(s).len() >= 1,
    decreases s.len(),
{
    if s.len() > 0 {
        lemma_split_nonempty(s.drop_last());
    }
}

/// Growing the text only adds parts or extends the last one: the parts of a
/// prefix, but its last, are parts of the whole.
proof fn lemma_split_prefix(s: Seq<char>, i: int, j: int)
    requires
        0 <= i <= j <= s.len(),
    ensures
        split_slash(s.take(i)).len() <= split_slash(s.take(j)).len(),
        forall|k: int|
            0 <= k < split_slash(s.take(i)).len() - 1 ==> #[trigger] split_slash(s.take(j))[k]
                == split_slash(s.take(i))[k],
    decreases j - i,
{
    if i < j {
        lemma_split_prefix(s, i, j - 1);
        lemma_split_nonempty(s.take(j - 1));
        assert(s.take(j).drop_last() =~= s.take(j - 1));
    }
}

proof fn lemma_join_extends(root: Seq<char>, parts: Seq<Seq<char>>, sep: char)
    ensures
        join_parts(root, parts, sep).len() >= root.len(),
        join_parts(root, parts, sep).take(root.len() as int) == root,
    decreases parts.len(),
{
    if parts.len() > 0 {
        lemma_join_extends(root, parts.drop_last(), sep);
        let p = join_parts(root, parts.drop_last(), sep);
        let q = join_parts(root, parts, sep);
        assert(q.take(p.len() as int) =~= p);
        assert(q.take(root.len() as int) =~= p.take(root.len() as int));
    }
}

/// A resolved path never leaves the root: it is the root's text followed
/// only by accepted components (none of them `.` or `..`).
pub proof fn lemma_resolve_under_root(root: Seq<char>, rel: Seq<char>, sep: char)
    ensures
        resolve_path(root, rel, sep) matches Some(p) ==> {
            &&& p.len() >= root.len()
            &&& p.take(root.len() as int) == root
            &&& forall|k: int|
                0 <= k < split_slash(rel).len() && (#[trigger] split_slash(rel)[k]).len() > 0
                    ==> component_ok(split_slash(rel)[k])
        },
{
    lemma_join_extends(root, split_slash(rel), sep);
}

proof fn lemma_split_append(s: Seq<char>, c: Seq<char>)
    requires
        !c.contains('/'),
    ensures
        split_slash(s + c) == split_slash(s).update(
            split_slash(s).len() - 1,
            split_slash(s).last() + c,
        ),
    decreases c.len(),
{
    lemma_split_nonempty(s);
    if c.len() == 0 {
        assert(s + c =~= s);
        assert(split_slash(s).last() + c =~= split_slash(s).last());
        assert(split_slash(s).update(split_slash(s).len() - 1, split_slash(s).last())
            =~= split_slash(s));
    } else {
        let d = c.drop_last();
        assert(!d.contains('/')) by {
            if d.contains('/') {
                let j = choose|j: int| 0 <= j < d.len() && d[j] == '/';
                assert(c[j] == '/');
            }
        }
        lemma_split_append(s, d);
        assert((s + c).drop_last() =~= s + d);
        assert((s + c).last() == c.last());
        assert(c.last() != '/') by {
            assert(c[c.len() - 1] == c.last());
        }
        let p = split_slash(s);
        let q = p.update(p.len() - 1, p.last() + d);
        assert(split_slash(s + c) == q.update(q.len() - 1, q.last().push(c.last())));
        assert(q.len() == p.len());
        assert(q.last() == p.last() + d);
        assert((p.last() + d).push(c.last()) =~= p.last() + c);
        assert(q.update(q.len() - 1, q.last().push(c.last())) =~= p.update(p.len() - 1, p.last() + c));
    }
}

/// A text without `/` is one component.
proof fn lemma_split_one(c: Seq<char>)
    requires
        !c.contains('/'),
    ensures
        split_slash(c) == seq![c],
{
    lemma_split_append(Seq::<char>::empty(), c);
    assert(Seq::<char>::empty() + c =~= c);
    assert(split_slash(Seq::<char>::empty()) == seq![Seq::<char>::empty()]);
    assert(Seq::<char>::empty() + c =~= c);
    assert(seq![Seq::<char>::empty()].update(0, c) =~= seq![c]);
}

/// `a/b` is the two components `a` and `b`.
proof fn lemma_split_two(a: Seq<char>, b: Seq<char>)
    requires
        !a.contains('/'),
        !b.contains('/'),
    ensures
        split_slash(a + seq!['/'] + b) == seq![a, b],
{
    lemma_split_one(a);
    let s = a + seq!['/'];
    assert(s.drop_last() =~= a);
    assert(split_slash(s) == seq![a].push(Seq::<char>::empty()));
    lemma_split_append(s, b);
    assert(Seq::<char>::empty() + b =~= b);
    assert(seq![a].push(Seq::<char>::empty()).update(1, b) =~= seq![a, b]);
}

/// A path component that names something under its folder: not empty, not
/// `.` or `..`, and free of `/`, `\` and `:`.
pub open spec fn plain_name(c: Seq<char>) -> bool {
    &&& c.len() > 0
    &&& c != seq!['.']
    &&& c != seq!['.', '.']
    &&& !c.contains('/')
    &&& !c.contains('\\')
    &&& !c.contains(':')
}

/// Under a root that ends with the separator, a plain name resolves to the
/// root followed by that name, and `a/b` to the root, `a`, the separator
/// and `b`; spaces and any other characters are kept as they are.
pub proof fn lemma_resolve_plain_names(root: Seq<char>, a: Seq<char>, b: Seq<char>, sep: char)
    requires
        sep == '/' || sep == '\\',
        root.len() > 0,
        root.last() == sep,
        plain_name(a),
        plain_name(b),
    ensures
        resolve_path(root, a, sep) == Some(root + a),
        resolve_path(root, a + seq!['/'] + b, sep) == Some(root + a + seq![sep] + b),
{
    lemma_split_one(a);
    lemma_split_two(a, b);
    let one = seq![a];
    assert(one.drop_last() =~= Seq::<Seq<char>>::empty());
    assert(one.last() == a);
    assert(join_parts(root, Seq::<Seq<char>>::empty(), sep) == root);
    assert(join_parts(root, one, sep) == push_component(root, a, sep));
    assert(parts_ok(one));
    let two = seq![a, b];
    assert(two.drop_last() =~= one);
    assert(parts_ok(two));
    let ra = root + a;
    assert(ra.last() == a.last());
    assert(!is_separator(ra.last(), sep)) by {
        assert(a[a.len() - 1] == a.last());
    }
    assert(!is_bare_drive(ra, sep)) by {
        if ra.len() == 2 {
            assert(ra[1] == a[0]);
        }
    }
}

/// A path with a `.` or `..` component, or one holding `\` or `:`, is
/// refused, wherever that component stands.
pub proof fn lemma_resolve_refuses(root: Seq<char>, a: Seq<char>, b: Seq<char>, sep: char)
    requires
        !a.contains('/'),
        !b.contains('/'),
        a == seq!['.'] || a == seq!['.', '.'] || a.contains('\\') || a.contains(':'),
    ensures
        resolve_path(root, a, sep) is None,
        resolve_path(root, a + seq!['/'] + b, sep) is None,
        resolve_path(root, b + seq!['/'] + a, sep) is None,
{
    lemma_split_one(a);
    lemma_split_two(a, b);
    lemma_split_two(b, a);
    assert(seq![a][0] == a);
    assert(seq![a, b][0] == a);
    assert(seq![b, a][1] == a);
}

fn is_component_ok(c: &Vec<char>) -> (r: bool)
    ensures
        r == component_ok(c@),
{
    if c.len() == 1 && c[0] == '.' {
        assert(c@ =~= seq!['.']);
        return false;
    }
    if c.len() == 2 && c[0] == '.' && c[1] == '.' {
        assert(c@ =~= seq!['.', '.']);
        return false;
    }
    let mut i: usize = 0;
    while i < c.len()
        invariant
            i <= c.len(),
            forall|k: int| 0 <= k < i ==> c@[k] != '\\' && c@[k] != ':',
        decreases c.len() - i,
    {
        if c[i] == '\\' || c[i] == ':' {
            assert(c@.contains(c@[i as int]));
            return false;
        }
        i = i + 1;
    }
    assert(!(c.len() == 1 && c@[0] == '.') ==> c@ != seq!['.']);
    assert(!(c.len() == 2 && c@[0] == '.' && c@[1] == '.') ==> c@ != seq!['.', '.']);
    true
}

fn push_part(path: &mut Vec<char>, c: &Vec<char>, sep: char)
    ensures
        final(path)@ == push_component(old(path)@, c@, sep),
{
    let ghost start = path@;
    let n = path.len();
    if n > 0 && path[n - 1] != '/' && path[n - 1] != sep {
        let drive = sep == '\\' && n == 2 && path[1] == ':' && (('a' <= path[0] && path[0] <= 'z') || (
        'A' <= path[0] && path[0] <= 'Z'));
        if !drive {
            path.push(sep);
        }
    }
    let ghost mid = path@;
    let mut i: usize = 0;
    while i < c.len()
        invariant
            i <= c.len(),
            path@ == mid + c@.take(i as int),
        decreases c.len() - i,
    {
        path.push(c[i]);
        i = i + 1;
        assert(path@ =~= mid + c@.take(i as int));
    }
    assert(c@.take(c.len() as int) =~= c@);
    assert(path@ =~= push_component(start, c@, sep));
}

impl AppState {
    /// Resolves a relative path (components separated by `/`) under the
    /// root, refusing any component that could leave it.
    pub fn resolve(&self, rel: &str) -> (r: Option<String>)
        ensures
            r.deep_view() == resolve_path(self.root@, rel@, self.separator),
    {
        let s = chars_of(rel);
        let mut path = chars_of(self.root.as_str());
        let mut comp: Vec<char> = Vec::new();
        let ghost mut done: Seq<Seq<char>> = Seq::empty();
        let mut i: usize = 0;
        assert(s@.take(0) =~= Seq::<char>::empty());
        assert(done.push(comp@) =~= seq![Seq::<char>::empty()]);
        while i < s.len()
            invariant
                i <= s.len(),
                s@ == rel@,
                split_slash(s@.take(i as int)) == done.push(comp@),
                path@ == join_parts(self.root@, done, self.separator),
                parts_ok(done),
            decreases s.len() - i,
        {
            let c = s[i];
            assert(s@.take(i + 1).drop_last() =~= s@.take(i as int));
            assert(s@.take(i + 1).last() == c);
            if c == '/' {
                if comp.len() > 0 {
                    if !is_component_ok(&comp) {
                        proof {
                            lemma_split_prefix(s@, i + 1, s@.len() as int);
                            let before = split_slash(s@.take(i + 1));
                            assert(before == done.push(comp@).push(Seq::empty()));
                            assert(before[done.len() as int] == comp@);
                            assert(s@.take(s@.len() as int) =~= s@);
                            assert(split_slash(s@)[done.len() as int] == comp@);
                        }
                        return None;
                    }
                    push_part(&mut path, &comp, self.separator);
                }
                proof {
                    assert(done.push(comp@).drop_last() =~= done);
                    done = done.push(comp@);
                    assert forall|k: int| 0 <= k < done.len() implies (#[trigger] done[k]).len() == 0
                        || component_ok(done[k]) by {
                        if k < done.len() - 1 {
                            assert(done[k] == done.drop_last()[k]);
                        }
                    }
                }
                comp = Vec::new();
            } else {
                let ghost oc = comp@;
                comp.push(c);
                assert(done.push(oc).update(done.len() as int, oc.push(c)) =~= done.push(comp@));
            }
            i = i + 1;
        }
        if comp.len() > 0 {
            if !is_component_ok(&comp) {
                assert(s@.take(s@.len() as int) =~= s@);
                assert(split_slash(s@)[done.len() as int] == comp@);
                return None;
            }
            push_part(&mut path, &comp, self.separator);
        }
        proof {
            assert(s@.take(s@.len() as int) =~= s@);
            let parts = done.push(comp@);
            assert(parts.drop_last() =~= done);
            assert forall|k: int| 0 <= k < parts.len() implies (#[trigger] parts[k]).len() == 0
                || component_ok(parts[k]) by {
                if k < parts.len() - 1 {
                    assert(parts[k] == done[k]);
                }
            }
        }
        Some(string_of(&path))
    }
}

/// The HTTP port given on the command line, read as `u16`'s `FromStr`
/// reads it: an optional `+` and decimal digits, at most 65535.
pub fn parse_port(arg: &str) -> (r: Option<u16>)
    ensures
        match parse_unsigned(arg@, 65535) {
            Some(v) => r == Some(v as u16),
            None => r is None,
        },
{
    match parse_decimal(&chars_of(arg), 65535) {
        Some(v) => Some(v as u16),
        None => None,
    }
}

} // verus!
