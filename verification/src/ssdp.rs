//! SSDP discovery: the announced targets, the messages sent, the reading
//! of M-SEARCH requests, and the bookkeeping of multicast interfaces.

use vstd::prelude::*;
use crate::format::{chars_eq, dec_digits, push_decimal, trim, trim_chars};
use crate::text::{chars_of, find, find_from, lemma_find_bounds, slice_chars, starts_with, string_of};

verus! {

pub const SERVER_ID: &'static str = "Windows/11 UPnP/1.0 server_upnp/1.0";

/// Validity of the announcements, in seconds.
pub const MAX_AGE: u32 = 1800;

/// Announcements go out every `ALIVE_EVERY` interface checks.
pub const ALIVE_EVERY: u32 = 20;

pub const NT_ROOT_DEVICE: &'static str = "upnp:rootdevice";

pub const NT_MEDIA_SERVER: &'static str = "urn:schemas-upnp-org:device:MediaServer:1";

pub const NT_CONTENT_DIRECTORY: &'static str = "urn:schemas-upnp-org:service:ContentDirectory:1";

pub const NT_CONNECTION_MANAGER: &'static str = "urn:schemas-upnp-org:service:ConnectionManager:1";

// ---------------------------------------------------------------------------
// Targets

/// The announced targets, as (NT/ST, USN) pairs: the root device, the
/// device's UUID, the MediaServer device type and its two services.
pub open spec fn targets_spec(uuid: Seq<char>) -> Seq<(Seq<char>, Seq<char>)> {
    let u = "uuid:"@ + uuid;
    seq![
        (NT_ROOT_DEVICE@, u + "::"@ + NT_ROOT_DEVICE@),
        (u, u),
        (NT_MEDIA_SERVER@, u + "::"@ + NT_MEDIA_SERVER@),
        (NT_CONTENT_DIRECTORY@, u + "::"@ + NT_CONTENT_DIRECTORY@),
        (NT_CONNECTION_MANAGER@, u + "::"@ + NT_CONNECTION_MANAGER@),
    ]
}

fn usn(u: &str, nt: &str) -> (r: String)
    ensures
        r@ == u@ + "::"@ + nt@,
{
    let mut s = String::new();
    s.append(u);
    s.append("::");
    s.append(nt);
    s
}

fn own(s: &str) -> (r: String)
    ensures
        r@ == s@,
{
    let mut r = String::new();
    r.append(s);
    r
}

pub fn targets(uuid: &str) -> (r: Vec<(String, String)>)
    ensures
        r.deep_view() == targets_spec(uuid@),
{
    let mut u = String::new();
    u.append("uuid:");
    u.append(uuid);
    let mut v: Vec<(String, String)> = Vec::new();
    v.push((own(NT_ROOT_DEVICE), usn(u.as_str(), NT_ROOT_DEVICE)));
    v.push((own(u.as_str()), own(u.as_str())));
    v.push((own(NT_MEDIA_SERVER), usn(u.as_str(), NT_MEDIA_SERVER)));
    v.push((own(NT_CONTENT_DIRECTORY), usn(u.as_str(), NT_CONTENT_DIRECTORY)));
    v.push((own(NT_CONNECTION_MANAGER), usn(u.as_str(), NT_CONNECTION_MANAGER)));
    assert(v.deep_view() =~= targets_spec(uuid@));
    v
}

// ---------------------------------------------------------------------------
// Headers

/// A line without the `\r` of its `\r\n` ending.
pub open spec fn strip_cr(l: Seq<char>) -> Seq<char> {
    if l.len() > 0 && l.last() == '\r' {
        l.drop_last()
    } else {
        l
    }
}

/// `str::lines`: lines end at `\n` or `\r\n`; the last line's ending is
/// optional, and a final `\r` without `\n` stays in the line.
pub open spec fn lines_of(s: Seq<char>) -> Seq<Seq<char>>
    decreases s.len(),
{
    if s.len() == 0 {
        Seq::empty()
    } else {
        match find(s, seq!['\n']) {
            None => seq![s],
            Some(i) => {
                proof {
                    lemma_find_bounds(s, seq!['\n']);
                }
                seq![strip_cr(s.take(i))] + lines_of(s.skip(i + 1))
            },
        }
    }
}

pub open spec fn ascii_lower(c: char) -> char {
    if 'A' <= c <= 'Z' {
        ((c as u32) + 32) as char
    } else {
        c
    }
}

/// `str::eq_ignore_ascii_case`.
pub open spec fn eq_ignore_ascii_case(a: Seq<char>, b: Seq<char>) -> bool {
    a.len() == b.len() && forall|i: int| 0 <= i < a.len() ==> ascii_lower(#[trigger] a[i]) == ascii_lower(b[i])
}

/// The value of the first line `name: value` (name compared without ASCII
/// case, both sides trimmed) among `lines`.
pub open spec fn header_in(lines: Seq<Seq<char>>, name: Seq<char>) -> Option<Seq<char>>
    decreases lines.len(),
{
    if lines.len() == 0 {
        None
    } else {
        let l = lines[0];
        match find(l, seq![':']) {
            Some(i) if eq_ignore_ascii_case(trim(l.take(i)), name) => Some(trim(l.skip(i + 1))),
            _ => header_in(lines.drop_first(), name),
        }
    }
}

/// The value of header `name` in an HTTP-like message.
pub open spec fn header_value_spec(msg: Seq<char>, name: Seq<char>) -> Option<Seq<char>> {
    header_in(lines_of(msg), name)
}

fn ascii_lower_char(c: char) -> (r: char)
    ensures
        r == ascii_lower(c),
{
    if 'A' <= c && c <= 'Z' {
        ((c as u8) + 32) as char
    } else {
        c
    }
}

fn eq_ignore_case(a: &Vec<char>, b: &Vec<char>) -> (r: bool)
    ensures
        r == eq_ignore_ascii_case(a@, b@),
{
    if a.len() != b.len() {
        return false;
    }
    let mut i: usize = 0;
    while i < a.len()
        invariant
            i <= a.len() == b.len(),
            forall|j: int| 0 <= j < i ==> ascii_lower(#[trigger] a@[j]) == ascii_lower(b@[j]),
        decreases a.len() - i,
    {
        if ascii_lower_char(a[i]) != ascii_lower_char(b[i]) {
            return false;
        }
        i = i + 1;
    }
    true
}

/// The value of the first `name: value` line of `msg` whose name matches
/// `name` without regard to ASCII case, trimmed.
pub fn header_value(msg: &str, name: &str) -> (r: Option<String>)
    ensures
        r.deep_view() == header_value_spec(msg@, name@),
{
    let m = chars_of(msg);
    let n = chars_of(name);
    let nl: Vec<char> = vec!['\n'];
    let colon: Vec<char> = vec![':'];
    assert(nl@ == seq!['\n'] && colon@ == seq![':']);
    let mut pos: usize = 0;
    assert(m@.skip(0) =~= m@);
    while pos < m.len()
        invariant
            pos <= m.len(),
            m@ == msg@,
            n@ == name@,
            nl@ == seq!['\n'],
            colon@ == seq![':'],
            header_in(lines_of(m@.skip(pos as int)), n@) == header_value_spec(msg@, name@),
        decreases m.len() - pos,
    {
        let ghost rest = m@.skip(pos as int);
        proof {
            lemma_find_bounds(rest, seq!['\n']);
        }
        let (line, next) = match find_from(&m, pos, &nl) {
            Some(e) => {
                let l = slice_chars(&m, pos, e);
                let l2 = if l.len() > 0 && l[l.len() - 1] == '\r' {
                    slice_chars(&l, 0, l.len() - 1)
                } else {
                    l
                };
                assert(rest.take(e - pos) =~= m@.subrange(pos as int, e as int));
                assert(rest.skip(e - pos + 1) =~= m@.skip(e + 1));
                assert(l2@ == strip_cr(rest.take(e - pos)));
                (l2, e + 1)
            },
            None => {
                assert(rest =~= m@.subrange(pos as int, m.len() as int));
                (slice_chars(&m, pos, m.len()), m.len())
            },
        };
        proof {
            assert(lines_of(rest)[0] == line@);
            assert(next == m.len() ==> lines_of(rest).drop_first() =~= Seq::<Seq<char>>::empty()) by {
                if next == m.len() {
                    assert(lines_of(Seq::<char>::empty()) == Seq::<Seq<char>>::empty());
                    if find(rest, seq!['\n']) is Some {
                        assert(m@.skip(next as int) =~= Seq::<char>::empty());
                        assert(lines_of(rest) == seq![line@] + lines_of(m@.skip(next as int)));
                    } else {
                        assert(lines_of(rest) == seq![rest]);
                    }
                }
            }
            assert(next < m.len() ==> lines_of(rest).drop_first() == lines_of(m@.skip(next as int)));
        }
        proof {
            lemma_find_bounds(line@, seq![':']);
            assert(line@.skip(0) =~= line@);
        }
        match find_from(&line, 0, &colon) {
            Some(c) => {
                let key = trim_chars(&slice_chars(&line, 0, c));
                if eq_ignore_case(&key, &n) {
                    let value = trim_chars(&slice_chars(&line, c + 1, line.len()));
                    assert(line@.subrange(0, c as int) =~= line@.take(c as int));
                    assert(line@.subrange(c + 1, line.len() as int) =~= line@.skip(c + 1));
                    return Some(string_of(&value));
                }
                assert(line@.subrange(0, c as int) =~= line@.take(c as int));
            },
            None => {},
        }
        if next == m.len() {
            assert(header_in(Seq::<Seq<char>>::empty(), n@) is None);
            return None;
        }
        pos = next;
    }
    assert(m@.skip(pos as int) =~= Seq::<char>::empty());
    None
}

proof fn lemma_header_in_case(lines: Seq<Seq<char>>, n1: Seq<char>, n2: Seq<char>)
    requires
        eq_ignore_ascii_case(n1, n2),
    ensures
        header_in(lines, n1) == header_in(lines, n2),
    decreases lines.len(),
{
    if lines.len() > 0 {
        lemma_header_in_case(lines.drop_first(), n1, n2);
        let l = lines[0];
        if let Some(i) = find(l, seq![':']) {
            let k = trim(l.take(i));
            if eq_ignore_ascii_case(k, n1) {
                assert forall|j: int| 0 <= j < k.len() implies ascii_lower(#[trigger] k[j]) == ascii_lower(
                    n2[j],
                ) by {
                    assert(ascii_lower(k[j]) == ascii_lower(n1[j]));
                    assert(ascii_lower(n1[j]) == ascii_lower(n2[j]));
                }
            }
            if eq_ignore_ascii_case(k, n2) {
                assert forall|j: int| 0 <= j < k.len() implies ascii_lower(#[trigger] k[j]) == ascii_lower(
                    n1[j],
                ) by {
                    assert(ascii_lower(k[j]) == ascii_lower(n2[j]));
                    assert(ascii_lower(n1[j]) == ascii_lower(n2[j]));
                }
            }
        }
    }
}

/// Header names are matched without regard to ASCII case: two names that
/// differ only so find the same value.
pub proof fn lemma_header_name_case(msg: Seq<char>, n1: Seq<char>, n2: Seq<char>)
    requires
        eq_ignore_ascii_case(n1, n2),
    ensures
        header_value_spec(msg, n1) == header_value_spec(msg, n2),
{
    lemma_header_in_case(lines_of(msg), n1, n2);
}

// ---------------------------------------------------------------------------
// Messages

/// The time as an HTTP date (`Sun, 06 Nov 1994 08:49:37 GMT`), for a
/// number of seconds since the Unix epoch.
pub uninterp spec fn http_date_text(secs: u64) -> Seq<char>;

/// The first second of the year 9999, from which httpdate refuses to
/// format a date.
pub const HTTP_DATE_LIMIT: u64 = 253402300800;

/// `httpdate::fmt_http_date` of the instant `secs` seconds after the Unix
/// epoch.  Its source panics from the year 9999 on, hence the bound; the
/// text, computed from the seconds alone, is not restated here.
#[verifier::external_body]
fn http_date(secs: u64) -> (r: String)
    requires
        secs < HTTP_DATE_LIMIT,
    ensures
        r@ == http_date_text(secs),
{
    httpdate::fmt_http_date(std::time::UNIX_EPOCH + std::time::Duration::from_secs(secs))
}

/// An IPv4 address, by its four octets.
#[derive(Clone, Copy, Debug, PartialEq, Eq, Structural)]
pub struct Ipv4 {
    pub a: u8,
    pub b: u8,
    pub c: u8,
    pub d: u8,
}

/// The dotted-decimal text of an IPv4 address.
pub open spec fn ipv4_text_spec(ip: Ipv4) -> Seq<char> {
    dec_digits(ip.a as nat) + seq!['.'] + dec_digits(ip.b as nat) + seq!['.'] + dec_digits(ip.c as nat)
        + seq!['.'] + dec_digits(ip.d as nat)
}

pub fn ipv4_text(ip: Ipv4) -> (r: String)
    ensures
        r@ == ipv4_text_spec(ip),
{
    let mut s = String::new();
    push_decimal(&mut s, ip.a as u64);
    crate::text::push_char(&mut s, '.');
    push_decimal(&mut s, ip.b as u64);
    crate::text::push_char(&mut s, '.');
    push_decimal(&mut s, ip.c as u64);
    crate::text::push_char(&mut s, '.');
    push_decimal(&mut s, ip.d as u64);
    assert(s@ =~= ipv4_text_spec(ip));
    s
}

/// The device description's URL on an interface whose address reads `ip`.
pub open spec fn location_text(ip: Seq<char>, port: u16) -> Seq<char> {
    "http://"@ + ip + seq![':'] + dec_digits(port as nat) + "/desc.xml"@
}

pub fn location_url(ip: &str, port: u16) -> (r: String)
    ensures
        r@ == location_text(ip@, port),
{
    let mut s = String::new();
    s.append("http://");
    s.append(ip);
    crate::text::push_char(&mut s, ':');
    push_decimal(&mut s, port as u64);
    s.append("/desc.xml");
    assert(s@ =~= location_text(ip@, port));
    s
}

/// The answer to an M-SEARCH for target `nt`.
pub open spec fn search_response_text(date: Seq<char>, location: Seq<char>, nt: Seq<char>, usn: Seq<char>) -> Seq<char> {
    "HTTP/1.1 200 OK\r\nCACHE-CONTROL: max-age="@ + dec_digits(MAX_AGE as nat) + "\r\nDATE: "@ + date
        + "\r\nEXT:\r\nLOCATION: "@ + location + "\r\nSERVER: "@ + SERVER_ID@ + "\r\nST: "@ + nt
        + "\r\nUSN: "@ + usn + "\r\nCONTENT-LENGTH: 0\r\n\r\n"@
}

/// A `ssdp:alive` announcement of target `nt`.
pub open spec fn alive_text(location: Seq<char>, nt: Seq<char>, usn: Seq<char>) -> Seq<char> {
    "NOTIFY * HTTP/1.1\r\nHOST: 239.255.255.250:1900\r\nCACHE-CONTROL: max-age="@ + dec_digits(
        MAX_AGE as nat,
    ) + "\r\nLOCATION: "@ + location + "\r\nNT: "@ + nt + "\r\nNTS: ssdp:alive\r\nSERVER: "@
        + SERVER_ID@ + "\r\nUSN: "@ + usn + "\r\n\r\n"@
}

/// A `ssdp:byebye` announcement of target `nt`.
pub open spec fn byebye_text(nt: Seq<char>, usn: Seq<char>) -> Seq<char> {
    "NOTIFY * HTTP/1.1\r\nHOST: 239.255.255.250:1900\r\nNT: "@ + nt + "\r\nNTS: ssdp:byebye\r\nUSN: "@
        + usn + "\r\n\r\n"@
}

/// Does a search for `st` ask for target `nt`?
pub open spec fn search_matches(st: Seq<char>, nt: Seq<char>) -> bool {
    st == "ssdp:all"@ || st == nt
}

/// The answers to a search for `st`, one per matching target, in target
/// order.
pub open spec fn search_responses(
    st: Seq<char>,
    t: Seq<(Seq<char>, Seq<char>)>,
    date: Seq<char>,
    location: Seq<char>,
) -> Seq<Seq<char>>
    decreases t.len(),
{
    if t.len() == 0 {
        Seq::empty()
    } else {
        let p = search_responses(st, t.drop_last(), date, location);
        let (nt, usn) = t.last();
        if search_matches(st, nt) {
            p.push(search_response_text(date, location, nt, usn))
        } else {
            p
        }
    }
}

/// Every announced target is found by a search for it, and only by that
/// search and by `ssdp:all`: a search for one target gets exactly one
/// answer, naming that target and its USN; `ssdp:all` gets one per target,
/// in target order.
pub proof fn lemma_search_answers(uuid: Seq<char>, date: Seq<char>, location: Seq<char>)
    ensures
        search_responses(NT_ROOT_DEVICE@, targets_spec(uuid), date, location) == seq![
            search_response_text(date, location, NT_ROOT_DEVICE@, "uuid:"@ + uuid + "::"@ + NT_ROOT_DEVICE@),
        ],
        search_responses("uuid:"@ + uuid, targets_spec(uuid), date, location) == seq![
            search_response_text(date, location, "uuid:"@ + uuid, "uuid:"@ + uuid),
        ],
        search_responses(NT_MEDIA_SERVER@, targets_spec(uuid), date, location) == seq![
            search_response_text(date, location, NT_MEDIA_SERVER@, "uuid:"@ + uuid + "::"@ + NT_MEDIA_SERVER@),
        ],
        search_responses(NT_CONTENT_DIRECTORY@, targets_spec(uuid), date, location) == seq![
            search_response_text(
                date,
                location,
                NT_CONTENT_DIRECTORY@,
                "uuid:"@ + uuid + "::"@ + NT_CONTENT_DIRECTORY@,
            ),
        ],
        search_responses(NT_CONNECTION_MANAGER@, targets_spec(uuid), date, location) == seq![
            search_response_text(
                date,
                location,
                NT_CONNECTION_MANAGER@,
                "uuid:"@ + uuid + "::"@ + NT_CONNECTION_MANAGER@,
            ),
        ],
        search_responses("ssdp:all"@, targets_spec(uuid), date, location) == seq![
            search_response_text(date, location, NT_ROOT_DEVICE@, "uuid:"@ + uuid + "::"@ + NT_ROOT_DEVICE@),
            search_response_text(date, location, "uuid:"@ + uuid, "uuid:"@ + uuid),
            search_response_text(date, location, NT_MEDIA_SERVER@, "uuid:"@ + uuid + "::"@ + NT_MEDIA_SERVER@),
            search_response_text(
                date,
                location,
                NT_CONTENT_DIRECTORY@,
                "uuid:"@ + uuid + "::"@ + NT_CONTENT_DIRECTORY@,
            ),
            search_response_text(
                date,
                location,
                NT_CONNECTION_MANAGER@,
                "uuid:"@ + uuid + "::"@ + NT_CONNECTION_MANAGER@,
            ),
        ],
{
    reveal_strlit("upnp:rootdevice");
    reveal_strlit("uuid:");
    reveal_strlit("ssdp:all");
    reveal_strlit("urn:schemas-upnp-org:device:MediaServer:1");
    reveal_strlit("urn:schemas-upnp-org:service:ContentDirectory:1");
    reveal_strlit("urn:schemas-upnp-org:service:ConnectionManager:1");
    let u = "uuid:"@ + uuid;
    let names = seq![
        NT_ROOT_DEVICE@,
        u,
        NT_MEDIA_SERVER@,
        NT_CONTENT_DIRECTORY@,
        NT_CONNECTION_MANAGER@,
        "ssdp:all"@,
    ];
    assert(u[1] == 'u');
    assert forall|i: int, j: int| 0 <= i < 6 && 0 <= j < 6 && i != j implies names[i] != names[j] by {
        if i < 6 && j < 6 {
            assert(names[i][1] != names[j][1] || names[i][21] != names[j][21] || names[i][32]
                != names[j][32]);
        }
    }
    reveal_with_fuel(search_responses, 6);
    let t = targets_spec(uuid);
    assert(t.drop_last().drop_last().drop_last().drop_last().drop_last() =~= Seq::<(Seq<char>, Seq<char>)>::empty());
}

/// The search target of a datagram, when it is an M-SEARCH request with an
/// `ST` header.
pub open spec fn search_target(text: Seq<char>) -> Option<Seq<char>> {
    if starts_with(text, "M-SEARCH"@) {
        header_value_spec(text, "ST"@)
    } else {
        None
    }
}

pub fn msearch_target(text: &str) -> (r: Option<String>)
    ensures
        r.deep_view() == search_target(text@),
{
    let t = chars_of(text);
    let m = chars_of("M-SEARCH");
    assert(t@.skip(0) =~= t@);
    if crate::text::occurs_at(&t, 0, &m) {
        header_value(text, "ST")
    } else {
        None
    }
}

/// Answers an M-SEARCH for `st` received at `now_secs`, the device being
/// described at `location`.
pub fn msearch_replies(st: &str, uuid: &str, location: &str, now_secs: u64) -> (r: Vec<String>)
    requires
        now_secs < HTTP_DATE_LIMIT,
    ensures
        r.deep_view() == search_responses(st@, targets_spec(uuid@), http_date_text(now_secs), location@),
{
    let date = http_date(now_secs);
    let t = targets(uuid);
    let q = chars_of(st);
    let all = chars_of("ssdp:all");
    let mut out: Vec<String> = Vec::new();
    let mut i: usize = 0;
    while i < t.len()
        invariant
            i <= t.len(),
            t.deep_view() == targets_spec(uuid@),
            q@ == st@,
            all@ == "ssdp:all"@,
            out.deep_view() == search_responses(st@, t.deep_view().take(i as int), date@, location@),
        decreases t.len() - i,
    {
        let (nt, u) = &t[i];
        assert(t.deep_view().take(i + 1).drop_last() =~= t.deep_view().take(i as int));
        assert(t.deep_view().take(i + 1).last() == (nt@, u@));
        let ntc = chars_of(nt.as_str());
        if chars_eq(&q, &all) || chars_eq(&q, &ntc) {
            let mut msg = String::new();
            msg.append("HTTP/1.1 200 OK\r\nCACHE-CONTROL: max-age=");
            push_decimal(&mut msg, MAX_AGE as u64);
            msg.append("\r\nDATE: ");
            msg.append(date.as_str());
            msg.append("\r\nEXT:\r\nLOCATION: ");
            msg.append(location);
            msg.append("\r\nSERVER: ");
            msg.append(SERVER_ID);
            msg.append("\r\nST: ");
            msg.append(nt.as_str());
            msg.append("\r\nUSN: ");
            msg.append(u.as_str());
            msg.append("\r\nCONTENT-LENGTH: 0\r\n\r\n");
            assert(msg@ =~= search_response_text(date@, location@, nt@, u@));
            let ghost before = out.deep_view();
            out.push(msg);
            assert(out.deep_view() =~= before.push(msg@));
        }
        i = i + 1;
    }
    assert(t.deep_view().take(t.len() as int) =~= t.deep_view());
    out
}

/// The `ssdp:alive` announcements of every target, from the interface where
/// the device is described at `location`.
pub fn alive_messages(location: &str, uuid: &str) -> (r: Vec<String>)
    ensures
        r.len() == targets_spec(uuid@).len(),
        forall|i: int|
            0 <= i < r.len() ==> (#[trigger] r[i])@ == alive_text(
                location@,
                targets_spec(uuid@)[i].0,
                targets_spec(uuid@)[i].1,
            ),
{
    let t = targets(uuid);
    let mut out: Vec<String> = Vec::new();
    let mut i: usize = 0;
    while i < t.len()
        invariant
            i <= t.len(),
            out.len() == i,
            t.deep_view() == targets_spec(uuid@),
            forall|k: int|
                0 <= k < i ==> (#[trigger] out[k])@ == alive_text(
                    location@,
                    targets_spec(uuid@)[k].0,
                    targets_spec(uuid@)[k].1,
                ),
        decreases t.len() - i,
    {
        let (nt, u) = &t[i];
        assert(t.deep_view()[i as int] == (nt@, u@));
        let mut msg = String::new();
        msg.append("NOTIFY * HTTP/1.1\r\nHOST: 239.255.255.250:1900\r\nCACHE-CONTROL: max-age=");
        push_decimal(&mut msg, MAX_AGE as u64);
        msg.append("\r\nLOCATION: ");
        msg.append(location);
        msg.append("\r\nNT: ");
        msg.append(nt.as_str());
        msg.append("\r\nNTS: ssdp:alive\r\nSERVER: ");
        msg.append(SERVER_ID);
        msg.append("\r\nUSN: ");
        msg.append(u.as_str());
        msg.append("\r\n\r\n");
        assert(msg@ =~= alive_text(location@, nt@, u@));
        out.push(msg);
        i = i + 1;
    }
    out
}

/// The `ssdp:byebye` announcements of every target.
pub fn byebye_messages(uuid: &str) -> (r: Vec<String>)
    ensures
        r.len() == targets_spec(uuid@).len(),
        forall|i: int|
            0 <= i < r.len() ==> (#[trigger] r[i])@ == byebye_text(
                targets_spec(uuid@)[i].0,
                targets_spec(uuid@)[i].1,
            ),
{
    let t = targets(uuid);
    let mut out: Vec<String> = Vec::new();
    let mut i: usize = 0;
    while i < t.len()
        invariant
            i <= t.len(),
            out.len() == i,
            t.deep_view() == targets_spec(uuid@),
            forall|k: int|
                0 <= k < i ==> (#[trigger] out[k])@ == byebye_text(
                    targets_spec(uuid@)[k].0,
                    targets_spec(uuid@)[k].1,
                ),
        decreases t.len() - i,
    {
        let (nt, u) = &t[i];
        assert(t.deep_view()[i as int] == (nt@, u@));
        let mut msg = String::new();
        msg.append("NOTIFY * HTTP/1.1\r\nHOST: 239.255.255.250:1900\r\nNT: ");
        msg.append(nt.as_str());
        msg.append("\r\nNTS: ssdp:byebye\r\nUSN: ");
        msg.append(u.as_str());
        msg.append("\r\n\r\n");
        assert(msg@ =~= byebye_text(nt@, u@));
        out.push(msg);
        i = i + 1;
    }
    out
}

// ---------------------------------------------------------------------------
// Interfaces

/// `Ipv4Addr::is_loopback`: 127.0.0.0/8.
pub open spec fn is_loopback(ip: Ipv4) -> bool {
    ip.a == 127
}

/// `Ipv4Addr::is_link_local`: 169.254.0.0/16.
pub open spec fn is_link_local(ip: Ipv4) -> bool {
    ip.a == 169 && ip.b == 254
}

pub open spec fn is_usable(ip: Ipv4) -> bool {
    !is_loopback(ip) && !is_link_local(ip)
}

/// The usable addresses among the interfaces' IPv4 addresses: neither
/// loopback nor link-local, each once, in order of first appearance.
pub open spec fn usable_ipv4_spec(addrs: Seq<Ipv4>) -> Seq<Ipv4>
    decreases addrs.len(),
{
    if addrs.len() == 0 {
        Seq::empty()
    } else {
        let p = usable_ipv4_spec(addrs.drop_last());
        let x = addrs.last();
        if is_usable(x) && !p.contains(x) {
            p.push(x)
        } else {
            p
        }
    }
}

fn contains_ip(v: &Vec<Ipv4>, ip: Ipv4) -> (r: bool)
    ensures
        r == v@.contains(ip),
{
    let mut i: usize = 0;
    while i < v.len()
        invariant
            i <= v.len(),
            forall|k: int| 0 <= k < i ==> v@[k] != ip,
        decreases v.len() - i,
    {
        if v[i] == ip {
            return true;
        }
        i = i + 1;
    }
    false
}

/// The usable IPv4 addresses among those of the machine's interfaces.
pub fn usable_ipv4(addrs: &Vec<Ipv4>) -> (r: Vec<Ipv4>)
    ensures
        r@ == usable_ipv4_spec(addrs@),
{
    let mut out: Vec<Ipv4> = Vec::new();
    let mut i: usize = 0;
    assert(addrs@.take(0) =~= Seq::<Ipv4>::empty());
    while i < addrs.len()
        invariant
            i <= addrs.len(),
            out@ == usable_ipv4_spec(addrs@.take(i as int)),
        decreases addrs.len() - i,
    {
        let x = addrs[i];
        assert(addrs@.take(i + 1).drop_last() =~= addrs@.take(i as int));
        assert(addrs@.take(i + 1).last() == x);
        if x.a != 127 && !(x.a == 169 && x.b == 254) && !contains_ip(&out, x) {
            out.push(x);
        }
        i = i + 1;
    }
    assert(addrs@.take(addrs.len() as int) =~= addrs@);
    out
}

/// The addresses kept hold no duplicate and no loopback or link-local
/// address, and every usable address given is among them.
pub proof fn lemma_usable_ipv4(addrs: Seq<Ipv4>)
    ensures
        usable_ipv4_spec(addrs).no_duplicates(),
        forall|i: int| 0 <= i < usable_ipv4_spec(addrs).len() ==> is_usable(#[trigger] usable_ipv4_spec(addrs)[i]),
        forall|i: int| 0 <= i < addrs.len() && is_usable(#[trigger] addrs[i]) ==> usable_ipv4_spec(addrs).contains(addrs[i]),
    decreases addrs.len(),
{
    if addrs.len() > 0 {
        let t = addrs.drop_last();
        lemma_usable_ipv4(t);
        let p = usable_ipv4_spec(t);
        let x = addrs.last();
        let r = usable_ipv4_spec(addrs);
        assert forall|i: int| 0 <= i < addrs.len() && is_usable(#[trigger] addrs[i]) implies r.contains(addrs[i]) by {
            if i < t.len() {
                assert(addrs[i] == t[i]);
                assert(p.contains(t[i]));
                let k = choose|k: int| 0 <= k < p.len() && p[k] == t[i];
                if is_usable(x) && !p.contains(x) {
                    assert(r[k] == p[k]);
                }
            } else {
                if !(is_usable(x) && !p.contains(x)) {
                } else {
                    assert(r[r.len() - 1] == x);
                }
            }
        }
        assert forall|i: int| 0 <= i < r.len() implies is_usable(#[trigger] r[i]) by {
            if i < p.len() {
                assert(r[i] == p[i]);
            }
        }
    }
}

/// What became of an attempt to join the multicast group on an interface.
pub enum JoinOutcome {
    Joined,
    /// The system kept an earlier membership: a success too.
    AlreadyMember,
    Failed,
}

/// Should the group be joined on `ip`, i.e. is it not covered yet?
pub fn needs_join(joined: &Vec<Ipv4>, ip: Ipv4) -> (r: bool)
    ensures
        r == !joined@.contains(ip),
{
    !contains_ip(joined, ip)
}

/// Records the outcome of joining on `ip`: the interface counts as covered
/// after a join or an existing membership. Returns whether an interface
/// was newly added to the covered ones.
pub fn record_join(joined: &mut Vec<Ipv4>, ip: Ipv4, outcome: JoinOutcome) -> (added: bool)
    ensures
        added == (!(outcome is Failed) && !old(joined)@.contains(ip)),
        old(joined)@.no_duplicates() ==> final(joined)@.no_duplicates(),
        !added ==> final(joined)@ == old(joined)@,
        added ==> final(joined)@ == old(joined)@.push(ip),
{
    match outcome {
        JoinOutcome::Failed => false,
        _ => {
            if contains_ip(joined, ip) {
                false
            } else {
                joined.push(ip);
                true
            }
        },
    }
}

/// The addresses of `s`, in order, that are in `current` (when `present`)
/// or that are not (otherwise).
pub open spec fn keep_present(s: Seq<Ipv4>, current: Seq<Ipv4>, present: bool) -> Seq<Ipv4>
    decreases s.len(),
{
    if s.len() == 0 {
        Seq::empty()
    } else {
        let p = keep_present(s.drop_last(), current, present);
        if current.contains(s.last()) == present {
            p.push(s.last())
        } else {
            p
        }
    }
}

/// Forgets the interfaces that have disappeared; returns them, so that
/// the group can be left on each.
pub fn drop_gone(joined: &mut Vec<Ipv4>, current: &Vec<Ipv4>) -> (gone: Vec<Ipv4>)
    ensures
        final(joined)@ == keep_present(old(joined)@, current@, true),
        gone@ == keep_present(old(joined)@, current@, false),
        old(joined)@.no_duplicates() ==> final(joined)@.no_duplicates(),
{
    let ghost start = joined@;
    let mut kept: Vec<Ipv4> = Vec::new();
    let mut gone: Vec<Ipv4> = Vec::new();
    let mut i: usize = 0;
    assert(start.take(0) =~= Seq::<Ipv4>::empty());
    while i < joined.len()
        invariant
            i <= joined.len(),
            joined@ == start,
            kept@ == keep_present(start.take(i as int), current@, true),
            gone@ == keep_present(start.take(i as int), current@, false),
        decreases joined.len() - i,
    {
        let x = joined[i];
        assert(start.take(i + 1).drop_last() =~= start.take(i as int));
        assert(start.take(i + 1).last() == x);
        if contains_ip(current, x) {
            kept.push(x);
        } else {
            gone.push(x);
        }
        i = i + 1;
    }
    assert(start.take(start.len() as int) =~= start);
    proof {
        lemma_keep_present(start, current@, true);
    }
    *joined = kept;
    gone
}

/// An address stays among the joined interfaces after a check exactly when
/// it was joined and is still present; so an interface that disappeared
/// and comes back is joined again. The joined interfaces stay distinct.
pub proof fn lemma_keep_present(s: Seq<Ipv4>, current: Seq<Ipv4>, present: bool)
    ensures
        forall|x: Ipv4| #[trigger] keep_present(s, current, present).contains(x) <==> (s.contains(x)
            && current.contains(x) == present),
        s.no_duplicates() ==> keep_present(s, current, present).no_duplicates(),
    decreases s.len(),
{
    if s.len() > 0 {
        let init = s.drop_last();
        lemma_keep_present(init, current, present);
        let p = keep_present(init, current, present);
        assert forall|x: Ipv4| #[trigger] keep_present(s, current, present).contains(x) <==> (s.contains(x)
            && current.contains(x) == present) by {
            if s.contains(x) && x != s.last() {
                let j = choose|j: int| 0 <= j < s.len() && s[j] == x;
                assert(init[j] == x);
            }
            if init.contains(x) {
                let j = choose|j: int| 0 <= j < init.len() && init[j] == x;
                assert(s[j] == x);
            }
            if current.contains(s.last()) == present {
                assert(keep_present(s, current, present) == p.push(s.last()));
                if p.push(s.last()).contains(x) && x != s.last() {
                    let j = choose|j: int| 0 <= j < p.len() + 1 && p.push(s.last())[j] == x;
                    assert(p[j] == x);
                }
                if p.contains(x) {
                    let j = choose|j: int| 0 <= j < p.len() && p[j] == x;
                    assert(p.push(s.last())[j] == x);
                }
                assert(p.push(s.last())[p.len() as int] == s.last());
            }
        }
        if s.no_duplicates() {
            assert(init.no_duplicates()) by {
                assert forall|i: int, j: int| 0 <= i < j < init.len() implies init[i] != init[j] by {
                    assert(init[i] == s[i] && init[j] == s[j]);
                }
            }
            if current.contains(s.last()) == present {
                assert(!p.contains(s.last())) by {
                    if init.contains(s.last()) {
                        let j = choose|j: int| 0 <= j < init.len() && init[j] == s.last();
                        assert(s[j] == s[s.len() - 1]);
                    }
                }
                let q = p.push(s.last());
                assert forall|i: int, j: int| 0 <= i < j < q.len() implies q[i] != q[j] by {
                    if j == q.len() - 1 {
                        assert(q[i] == p[i]);
                        assert(p.contains(p[i]));
                    } else {
                        assert(q[i] == p[i] && q[j] == p[j]);
                    }
                }
            }
        }
    }
}

/// One interface check of the announcement loop: the check counter moves
/// on, and announcements are due when an interface appeared or every
/// `ALIVE_EVERY` checks.
pub fn interface_check(tick: u32, new_interface: bool) -> (r: (u32, bool))
    requires
        tick < u32::MAX,
    ensures
        r.0 == tick + 1,
        r.1 == (new_interface || (tick + 1) % (ALIVE_EVERY as int) == 0),
{
    let t = tick + 1;
    (t, new_interface || t % ALIVE_EVERY == 0)
}

} // verus!
