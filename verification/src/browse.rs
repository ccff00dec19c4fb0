//! The ContentDirectory `Browse` action, apart from its disk reads: which
//! object a request names, and the response for what the disk holds.

use vstd::prelude::*;
use crate::didl::{container_didl, container_didl_text, item_didl, item_didl_text};
use crate::format::{dec_digits, parse_decimal, parse_unsigned, push_decimal, trim, trim_str};
use crate::listing::{
    child_views, listed_children, sort_children, sorted_children, ChildModel, DirEntry,
};
use crate::object_id::{
    id_for, id_of, last_name, lemma_path_parts, name_of, parent_of, parent_path, rel_for_id, rel_of_id,
};
use crate::soap::{arg, arg_value, envelope, envelope_text, fault, fault_text, CD_SERVICE, HTTP_INTERNAL_SERVER_ERROR, HTTP_OK};
use crate::state::{resolve_path, AppState};
use crate::text::{chars_of, string_of};
use crate::xml::{escape_xml, xml_escape};

verus! {

/// A `Browse` request, once its object is found under the root.
pub struct BrowseRequest {
    /// The object's path relative to the root.
    pub rel: String,
    /// The object's path on disk.
    pub full: String,
    /// `BrowseMetadata` (describe the object) rather than
    /// `BrowseDirectChildren` (list a folder).
    pub metadata: bool,
    pub start: usize,
    pub count: usize,
}

pub struct BrowseRequestModel {
    pub rel: Seq<char>,
    pub full: Seq<char>,
    pub metadata: bool,
    pub start: nat,
    pub count: nat,
}

impl View for BrowseRequest {
    type V = BrowseRequestModel;

    open spec fn view(&self) -> BrowseRequestModel {
        BrowseRequestModel {
            rel: self.rel@,
            full: self.full@,
            metadata: self.metadata,
            start: self.start as nat,
            count: self.count as nat,
        }
    }
}

/// A number argument: its trimmed text parsed as a `usize`, else 0.
pub open spec fn number_arg(v: Option<Seq<char>>) -> nat {
    match v {
        Some(t) => match parse_unsigned(trim(t), usize::MAX as nat) {
            Some(n) => n,
            None => 0,
        },
        None => 0,
    }
}

/// How a `Browse` body is read: UPnP error 402 without an `ObjectID`;
/// error 701 when the ID does not decode or names a path outside the root.
pub open spec fn browse_request_spec(root: Seq<char>, sep: char, body: Seq<char>) -> Result<
    BrowseRequestModel,
    (u32, Seq<char>),
> {
    match arg_value(body, "ObjectID"@) {
        None => Err((402u32, "Invalid Args"@)),
        Some(oid) => match rel_of_id(trim(oid)) {
            None => Err((701u32, "No such object"@)),
            Some(rel) => match resolve_path(root, rel, sep) {
                None => Err((701u32, "No such object"@)),
                Some(full) => Ok(
                    BrowseRequestModel {
                        rel,
                        full,
                        metadata: arg_value(body, "BrowseFlag"@) == Some("BrowseMetadata"@),
                        start: number_arg(arg_value(body, "StartingIndex"@)),
                        count: number_arg(arg_value(body, "RequestedCount"@)),
                    },
                ),
            },
        },
    }
}

fn number_from(v: Option<String>) -> (r: usize)
    ensures
        r as nat == number_arg(v.deep_view()),
{
    match v {
        Some(t) => {
            let tv = trim_str(t.as_str());
            match parse_decimal(&tv, usize::MAX as u64) {
                Some(n) => n as usize,
                None => 0,
            }
        },
        None => 0,
    }
}

/// Reads a `Browse` request body and finds its object under the root.
pub fn browse_request(st: &AppState, body: &str) -> (r: Result<BrowseRequest, (u32, &'static str)>)
    ensures
        match r {
            Ok(q) => browse_request_spec(st.root@, st.separator, body@) == Ok::<BrowseRequestModel, (u32, Seq<char>)>(q@),
            Err((c, m)) => browse_request_spec(st.root@, st.separator, body@) == Err::<BrowseRequestModel, (u32, Seq<char>)>((c, m@)),
        },
{
    let object_id = match arg(body, "ObjectID") {
        Some(o) => o,
        None => return Err((402u32, "Invalid Args")),
    };
    let metadata = match arg(body, "BrowseFlag") {
        Some(f) => crate::format::chars_eq(&chars_of(f.as_str()), &chars_of("BrowseMetadata")),
        None => false,
    };
    let start = number_from(arg(body, "StartingIndex"));
    let count = number_from(arg(body, "RequestedCount"));
    let trimmed = string_of(&trim_str(object_id.as_str()));
    let rel = match rel_for_id(trimmed.as_str()) {
        Some(r) => r,
        None => return Err((701u32, "No such object")),
    };
    let full = match st.resolve(rel.as_str()) {
        Some(f) => f,
        None => return Err((701u32, "No such object")),
    };
    Ok(BrowseRequest { rel, full, metadata, start, count })
}

// ---------------------------------------------------------------------------
// Responses

pub const DIDL_HEAD: &'static str = "<DIDL-Lite xmlns=\"urn:schemas-upnp-org:metadata-1-0/DIDL-Lite/\" xmlns:dc=\"http://purl.org/dc/elements/1.1/\" xmlns:upnp=\"urn:schemas-upnp-org:metadata-1-0/upnp/\">";

/// The `Browse` response: the DIDL-Lite document of the entries (escaped as
/// the text of `Result`), how many were returned, how many there are.
pub open spec fn browse_response_text(entries: Seq<char>, returned: nat, total: nat) -> Seq<char> {
    envelope_text(
        CD_SERVICE@,
        "Browse"@,
        "<Result>"@ + xml_escape(DIDL_HEAD@ + entries + "</DIDL-Lite>"@) + "</Result><NumberReturned>"@
            + dec_digits(returned) + "</NumberReturned><TotalMatches>"@ + dec_digits(total)
            + "</TotalMatches><UpdateID>1</UpdateID>"@,
    )
}

pub fn browse_response(entries: &str, returned: u64, total: u64) -> (r: String)
    ensures
        r@ == browse_response_text(entries@, returned as nat, total as nat),
{
    let mut didl = String::new();
    didl.append(DIDL_HEAD);
    didl.append(entries);
    didl.append("</DIDL-Lite>");
    let mut inner = String::new();
    inner.append("<Result>");
    let e = escape_xml(didl.as_str());
    inner.append(e.as_str());
    inner.append("</Result><NumberReturned>");
    push_decimal(&mut inner, returned);
    inner.append("</NumberReturned><TotalMatches>");
    push_decimal(&mut inner, total);
    inner.append("</TotalMatches><UpdateID>1</UpdateID>");
    assert(didl@ =~= DIDL_HEAD@ + entries@ + "</DIDL-Lite>"@);
    assert(inner@ =~= "<Result>"@ + xml_escape(DIDL_HEAD@ + entries@ + "</DIDL-Lite>"@)
        + "</Result><NumberReturned>"@ + dec_digits(returned as nat) + "</NumberReturned><TotalMatches>"@
        + dec_digits(total as nat) + "</TotalMatches><UpdateID>1</UpdateID>"@);
    envelope(CD_SERVICE, "Browse", inner.as_str())
}

/// The DIDL-Lite entry describing the object itself (`BrowseMetadata`):
/// the root is the folder `0` under `-1` titled with the server's name;
/// any other object is described under its parent's ID, titled with its
/// own name.
pub open spec fn metadata_entry_text(
    name: Seq<char>,
    base: Seq<char>,
    rel: Seq<char>,
    is_dir: bool,
    size: u64,
) -> Seq<char> {
    if rel.len() == 0 {
        container_didl_text("0"@, "-1"@, name)
    } else if is_dir {
        container_didl_text(id_of(rel), id_of(parent_path(rel)), last_name(rel))
    } else {
        item_didl_text(base, id_of(rel), id_of(parent_path(rel)), last_name(rel), rel, size)
    }
}

/// `BrowseMetadata` describes the root as folder `0` under `-1`, titled
/// with the server's name; an object directly under the root under the
/// root's ID `0`; an object `p/n` under the ID of `p`. Each non-root
/// object is titled with its own name.
pub proof fn lemma_metadata_parent(
    name: Seq<char>,
    base: Seq<char>,
    p: Seq<char>,
    n: Seq<char>,
    is_dir: bool,
    size: u64,
)
    requires
        n.len() > 0,
        !n.contains('/'),
    ensures
        metadata_entry_text(name, base, Seq::empty(), is_dir, size) == container_didl_text(
            seq!['0'],
            seq!['-', '1'],
            name,
        ),
        metadata_entry_text(name, base, n, is_dir, size) == if is_dir {
            container_didl_text(id_of(n), seq!['0'], n)
        } else {
            item_didl_text(base, id_of(n), seq!['0'], n, n, size)
        },
        metadata_entry_text(name, base, p + seq!['/'] + n, is_dir, size) == if is_dir {
            container_didl_text(id_of(p + seq!['/'] + n), id_of(p), n)
        } else {
            item_didl_text(base, id_of(p + seq!['/'] + n), id_of(p), n, p + seq!['/'] + n, size)
        },
{
    reveal_strlit("0");
    reveal_strlit("-1");
    lemma_path_parts(p, n);
    assert(id_of(Seq::<char>::empty()) == seq!['0']);
    assert((p + seq!['/'] + n).len() > 0);
}

/// What follows once the object's kind and size are known.
pub enum BrowseNext {
    /// The response is ready.
    Reply(String),
    /// The folder's entries are to be read, then `browse_listing` called.
    ListChildren,
    /// The request fails with this UPnP error.
    Fault(u32, &'static str),
}

/// `BrowseMetadata` is answered with the object's own entry; listing the
/// children of a file fails with UPnP error 701.
pub fn browse_after_stat(st: &AppState, base: &str, req: &BrowseRequest, is_dir: bool, size: u64) -> (r: BrowseNext)
    ensures
        req.metadata ==> (r matches BrowseNext::Reply(x) && x@ == browse_response_text(
            metadata_entry_text(st.friendly_name@, base@, req.rel@, is_dir, size),
            1,
            1,
        )),
        !req.metadata && !is_dir ==> (r matches BrowseNext::Fault(c, m) && c == 701 && m@
            == "No such object"@),
        !req.metadata && is_dir ==> r is ListChildren,
{
    if req.metadata {
        let entry = if req.rel.as_str().is_empty() {
            container_didl("0", "-1", st.friendly_name.as_str())
        } else {
            let name = name_of(req.rel.as_str());
            let pid = id_for(parent_of(req.rel.as_str()).as_str());
            let id = id_for(req.rel.as_str());
            if is_dir {
                container_didl(id.as_str(), pid.as_str(), name.as_str())
            } else {
                item_didl(base, id.as_str(), pid.as_str(), name.as_str(), req.rel.as_str(), size)
            }
        };
        BrowseNext::Reply(browse_response(entry.as_str(), 1, 1))
    } else if !is_dir {
        BrowseNext::Fault(701, "No such object")
    } else {
        BrowseNext::ListChildren
    }
}

/// The page of `s` a request gets: from `start`, at most `count` children
/// (all the rest when `count` is 0); none when `start` is past the end.
pub open spec fn page<T>(s: Seq<T>, start: nat, count: nat) -> Seq<T> {
    if start < s.len() {
        let end = if count == 0 || start + count > s.len() {
            s.len() as int
        } else {
            (start + count) as int
        };
        s.subrange(start as int, end)
    } else {
        Seq::empty()
    }
}

/// Consecutive pages of one listing join up: the page of `n1` children
/// from `start` followed by the page of `n2` from `start + n1` is the page
/// of `n1 + n2` from `start`, so a client paging through a folder sees
/// every child once, in order.
pub proof fn lemma_pages_join<T>(s: Seq<T>, start: nat, n1: nat, n2: nat)
    requires
        n1 > 0,
        n2 > 0,
    ensures
        page(s, start, n1) + page(s, start + n1, n2) == page(s, start, n1 + n2),
{
    assert(page(s, start, n1) + page(s, start + n1, n2) =~= page(s, start, n1 + n2));
}

pub open spec fn child_entry_text(base: Seq<char>, pid: Seq<char>, c: ChildModel) -> Seq<char> {
    if c.is_dir {
        container_didl_text(id_of(c.rel), pid, c.name)
    } else {
        item_didl_text(base, id_of(c.rel), pid, c.name, c.rel, c.size)
    }
}

/// The entries of `s`, in order, all under parent ID `pid`.
pub open spec fn children_text(base: Seq<char>, pid: Seq<char>, s: Seq<ChildModel>) -> Seq<char>
    decreases s.len(),
{
    if s.len() == 0 {
        Seq::empty()
    } else {
        children_text(base, pid, s.drop_last()) + child_entry_text(base, pid, s.last())
    }
}

/// The `BrowseDirectChildren` response for the folder at `rel` holding
/// `entries`: its listed children in listing order, the requested page of
/// them, and their total number.
pub open spec fn listing_text(
    base: Seq<char>,
    rel: Seq<char>,
    entries: Seq<DirEntry>,
    start: nat,
    count: nat,
) -> Seq<char> {
    let sorted = sort_children(listed_children(rel, entries));
    let shown = page(sorted, start, count);
    browse_response_text(children_text(base, id_of(rel), shown), shown.len(), sorted.len())
}

/// Answers `BrowseDirectChildren` for the folder of `req`, given the
/// entries read from it.
pub fn browse_listing(base: &str, req: &BrowseRequest, entries: &Vec<DirEntry>) -> (r: String)
    ensures
        r@ == listing_text(base@, req.rel@, entries@, req.start as nat, req.count as nat),
{
    let children = sorted_children(req.rel.as_str(), entries);
    let ghost sorted = child_views(children@);
    let total = children.len();
    let start = req.start;
    let count = req.count;
    let (from, to) = if start < total {
        let end = if count == 0 || count > total - start {
            total
        } else {
            start + count
        };
        (start, end)
    } else {
        (0, 0)
    };
    let ghost shown = page(sorted, start as nat, count as nat);
    assert(shown =~= sorted.subrange(from as int, to as int));
    let pid = id_for(req.rel.as_str());
    let mut out = String::new();
    let mut i: usize = from;
    while i < to
        invariant
            from <= i <= to <= children.len(),
            sorted == child_views(children@),
            pid@ == id_of(req.rel@),
            out@ == children_text(base@, pid@, sorted.subrange(from as int, i as int)),
        decreases to - i,
    {
        let c = &children[i];
        let id = id_for(c.rel.as_str());
        let entry = if c.is_dir {
            container_didl(id.as_str(), pid.as_str(), c.name.as_str())
        } else {
            item_didl(base, id.as_str(), pid.as_str(), c.name.as_str(), c.rel.as_str(), c.size)
        };
        out.append(entry.as_str());
        proof {
            let next = sorted.subrange(from as int, i + 1);
            assert(next.drop_last() =~= sorted.subrange(from as int, i as int));
            assert(next.last() == sorted[i as int]);
            assert(sorted[i as int] == c@);
        }
        i = i + 1;
    }
    browse_response(out.as_str(), (to - from) as u64, total as u64)
}

/// The HTTP status and body answering a `Browse`: the response, or the
/// UPnP error it failed with (status 500).
pub open spec fn browse_reply_spec(r: Result<Seq<char>, (u32, Seq<char>)>) -> (u16, Seq<char>) {
    match r {
        Ok(x) => (HTTP_OK, x),
        Err((c, m)) => (HTTP_INTERNAL_SERVER_ERROR, fault_text(c, m)),
    }
}

pub fn browse_reply(r: Result<String, (u32, &'static str)>) -> (out: (u16, String))
    ensures
        (out.0, out.1@) == browse_reply_spec(
            match r {
                Ok(x) => Ok(x@),
                Err((c, m)) => Err((c, m@)),
            },
        ),
{
    match r {
        Ok(x) => (HTTP_OK, x),
        Err((c, m)) => (HTTP_INTERNAL_SERVER_ERROR, fault(c, m)),
    }
}

} // verus!
