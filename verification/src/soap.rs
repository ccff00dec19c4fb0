//! SOAP request arguments and response envelopes.

use vstd::prelude::*;
use crate::format::{chars_eq, dec_digits, push_decimal};
use crate::text::{chars_of, find, find_from, lemma_find_after, lemma_find_bounds, slice_chars, string_of};
use crate::xml::{
    escape_xml, lemma_escape_no_markup, lemma_unescape_escape, unescape_xml, xml_escape, xml_unescape,
};

verus! {

pub open spec fn open_tag(tag: Seq<char>) -> Seq<char> {
    seq!['<'] + tag
}

pub open spec fn close_tag(tag: Seq<char>) -> Seq<char> {
    seq!['<', '/'] + tag
}

/// The value of the element that follows the first `<tag` at or after
/// `from` that is followed by `>`, a space or `/` (a `<tag` followed by
/// anything else, as in `<tagged`, is skipped):
/// - the empty value when its start tag ends with `/>`;
/// - otherwise the text between the start tag's `>` and the next `</tag`,
///   un-escaped;
/// - none when the body ends before those delimiters are found.
pub open spec fn arg_scan(body: Seq<char>, tag: Seq<char>, from: int) -> Option<Seq<char>>
    decreases body.len() - from,
    when 0 <= from <= body.len()
{
    let open = open_tag(tag);
    match find(body.skip(from), open) {
        None => None,
        Some(k) => {
            proof {
                lemma_find_bounds(body.skip(from), open);
            }
            let next = from + k + open.len();
            let after = body.skip(next);
            if after.len() == 0 {
                None
            } else if after[0] != '>' && after[0] != ' ' && after[0] != '/' {
                arg_scan(body, tag, next)
            } else {
                match find(after, seq!['>']) {
                    None => None,
                    Some(gt) => {
                        if gt > 0 && after[gt - 1] == '/' {
                            Some(Seq::empty())
                        } else {
                            let rest = after.skip(gt + 1);
                            match find(rest, close_tag(tag)) {
                                None => None,
                                Some(end) => Some(xml_unescape(rest.take(end))),
                            }
                        }
                    },
                }
            }
        },
    }
}

/// The text value of SOAP argument `<tag>value</tag>` in `body`.
pub open spec fn arg_value(body: Seq<char>, tag: Seq<char>) -> Option<Seq<char>> {
    arg_scan(body, tag, 0)
}

/// Extracts the text value of a SOAP argument (`<Tag>value</Tag>`), or
/// the empty text for `<Tag/>`; see `arg_scan` for the exact reading.
pub fn arg(body: &str, tag: &str) -> (r: Option<String>)
    ensures
        r.deep_view() == arg_value(body@, tag@),
{
    let b = chars_of(body);
    let t = chars_of(tag);
    let mut open: Vec<char> = Vec::new();
    open.push('<');
    let mut k: usize = 0;
    while k < t.len()
        invariant
            k <= t.len(),
            open@ == seq!['<'] + t@.take(k as int),
        decreases t.len() - k,
    {
        open.push(t[k]);
        k = k + 1;
        assert(open@ =~= seq!['<'] + t@.take(k as int));
    }
    assert(t@.take(t.len() as int) =~= t@);
    let mut close: Vec<char> = Vec::new();
    close.push('<');
    close.push('/');
    let mut k: usize = 0;
    while k < t.len()
        invariant
            k <= t.len(),
            close@ == seq!['<', '/'] + t@.take(k as int),
        decreases t.len() - k,
    {
        close.push(t[k]);
        k = k + 1;
        assert(close@ =~= seq!['<', '/'] + t@.take(k as int));
    }
    let gt_pat: Vec<char> = vec!['>'];
    assert(gt_pat@ == seq!['>']);
    let mut from: usize = 0;
    loop
        invariant
            from <= b.len(),
            b@ == body@,
            open@ == open_tag(tag@),
            close@ == close_tag(tag@),
            gt_pat@ == seq!['>'],
            arg_scan(b@, tag@, from as int) == arg_value(body@, tag@),
        decreases b.len() - from,
    {
        proof {
            lemma_find_bounds(b@.skip(from as int), open@);
        }
        let start = match find_from(&b, from, &open) {
            None => return None,
            Some(s) => s,
        };
        let next = start + open.len();
        if next >= b.len() {
            return None;
        }
        let c = b[next];
        if c != '>' && c != ' ' && c != '/' {
            from = next;
            continue;
        }
        let ghost after = b@.skip(next as int);
        proof {
            lemma_find_bounds(after, seq!['>']);
            assert(after.skip(0) =~= after);
        }
        let gt = match find_from(&b, next, &gt_pat) {
            None => return None,
            Some(g) => g,
        };
        if gt > next && b[gt - 1] == '/' {
            return Some(String::new());
        }
        let ghost rest = after.skip(gt - next + 1);
        assert(rest =~= b@.skip(gt + 1));
        proof {
            lemma_find_bounds(rest, close@);
        }
        let end = match find_from(&b, gt + 1, &close) {
            None => return None,
            Some(e) => e,
        };
        assert(rest.take(end - gt - 1) =~= b@.subrange(gt + 1, end as int));
        let inner = string_of(&slice_chars(&b, gt + 1, end));
        return Some(unescape_xml(inner.as_str()));
    }
}

/// A value written escaped as `<tag>value</tag>` is read back unchanged by
/// `arg`, whatever follows the element and whatever text free of `<`
/// precedes it.
pub proof fn lemma_arg_reads_escaped(pre: Seq<char>, tag: Seq<char>, v: Seq<char>, post: Seq<char>)
    requires
        forall|i: int| 0 <= i < pre.len() ==> pre[i] != '<',
    ensures
        arg_value(
            pre + open_tag(tag) + seq!['>'] + xml_escape(v) + close_tag(tag) + seq!['>'] + post,
            tag,
        ) == Some(v),
{
    let open = open_tag(tag);
    let close = close_tag(tag);
    let e = xml_escape(v);
    let x = seq!['>'] + e + close + seq!['>'] + post;
    let body = pre + open + seq!['>'] + e + close + seq!['>'] + post;
    assert(body =~= pre + (open + x));
    assert(body.skip(0) =~= body);
    assert((open + x).take(open.len() as int) =~= open);
    lemma_find_after(pre, open + x, open);
    let next = pre.len() + open.len();
    assert(body.skip(next as int) =~= x);
    assert(x.take(1) =~= seq!['>']);
    assert(find(x, seq!['>']) == Some(0int));
    let rest = x.skip(1);
    let y = close + seq!['>'] + post;
    assert(rest =~= e + y);
    assert(y.take(close.len() as int) =~= close);
    lemma_escape_no_markup(v);
    lemma_find_after(e, y, close);
    assert(rest.take(e.len() as int) =~= e);
    lemma_unescape_escape(v);
}

// ---------------------------------------------------------------------------
// Envelopes

pub const CD_SERVICE: &'static str = "urn:schemas-upnp-org:service:ContentDirectory:1";

pub const CM_SERVICE: &'static str = "urn:schemas-upnp-org:service:ConnectionManager:1";

/// The media formats offered, for `GetProtocolInfo`.
pub const PROTOCOL_INFO: &'static str = "http-get:*:audio/mpeg:*,http-get:*:audio/mp4:*,http-get:*:audio/x-wav:*,http-get:*:audio/flac:*,http-get:*:audio/ogg:*,http-get:*:video/mp4:*,http-get:*:video/x-matroska:*,http-get:*:video/x-msvideo:*,http-get:*:video/mpeg:*,http-get:*:video/quicktime:*,http-get:*:video/webm:*,http-get:*:image/jpeg:*,http-get:*:image/png:*,http-get:*:image/gif:*,http-get:*:*:*";

/// XML declaration, SOAP envelope and body start tags.
pub const SOAP_HEAD: &'static str = "<?xml version=\"1.0\" encoding=\"utf-8\"?><s:Envelope xmlns:s=\"http://schemas.xmlsoap.org/soap/envelope/\" s:encodingStyle=\"http://schemas.xmlsoap.org/soap/encoding/\"><s:Body>";

/// The SOAP response of `action` of `service`, wrapping `inner`.
pub open spec fn envelope_text(service: Seq<char>, action: Seq<char>, inner: Seq<char>) -> Seq<char> {
    SOAP_HEAD@ + "<u:"@ + action + "Response xmlns:u=\""@ + service + "\">"@ + inner + "</u:"@ + action
        + "Response></s:Body></s:Envelope>"@
}

pub fn envelope(service: &str, action: &str, inner: &str) -> (r: String)
    ensures
        r@ == envelope_text(service@, action@, inner@),
{
    let mut s = String::new();
    s.append(SOAP_HEAD);
    s.append("<u:");
    s.append(action);
    s.append("Response xmlns:u=\"");
    s.append(service);
    s.append("\">");
    s.append(inner);
    s.append("</u:");
    s.append(action);
    s.append("Response></s:Body></s:Envelope>");
    assert(s@ =~= envelope_text(service@, action@, inner@));
    s
}

/// The UPnP error response with `code`, its description escaped.
pub open spec fn fault_text(code: u32, descr: Seq<char>) -> Seq<char> {
    SOAP_HEAD@ + "<s:Fault><faultcode>s:Client</faultcode><faultstring>UPnPError</faultstring><detail><UPnPError xmlns=\"urn:schemas-upnp-org:control-1-0\"><errorCode>"@
        + dec_digits(code as nat) + "</errorCode><errorDescription>"@ + xml_escape(descr)
        + "</errorDescription></UPnPError></detail></s:Fault></s:Body></s:Envelope>"@
}

pub fn fault(code: u32, descr: &str) -> (r: String)
    ensures
        r@ == fault_text(code, descr@),
{
    let mut s = String::new();
    s.append(SOAP_HEAD);
    s.append(
        "<s:Fault><faultcode>s:Client</faultcode><faultstring>UPnPError</faultstring><detail><UPnPError xmlns=\"urn:schemas-upnp-org:control-1-0\"><errorCode>",
    );
    push_decimal(&mut s, code as u64);
    s.append("</errorCode><errorDescription>");
    let e = escape_xml(descr);
    s.append(e.as_str());
    s.append("</errorDescription></UPnPError></detail></s:Fault></s:Body></s:Envelope>");
    assert(s@ =~= fault_text(code, descr@));
    s
}

// ---------------------------------------------------------------------------
// Actions

pub const HTTP_OK: u16 = 200;

pub const HTTP_INTERNAL_SERVER_ERROR: u16 = 500;

/// Is `action` present and equal to `name`?
fn action_is(action: Option<&str>, name: &str) -> (r: bool)
    ensures
        r == (action matches Some(a) && a@ == name@),
{
    match action {
        Some(a) => chars_eq(&chars_of(a), &chars_of(name)),
        None => false,
    }
}

/// The reply to an action that is not offered.
pub open spec fn invalid_action_reply() -> (u16, Seq<char>) {
    (HTTP_INTERNAL_SERVER_ERROR, fault_text(401, "Invalid Action"@))
}

/// The ConnectionManager reply to `action`: protocol information, the
/// single connection `0` and its (empty) description; any other action is
/// refused with UPnP error 401.
pub open spec fn connection_manager_reply(action: Option<Seq<char>>) -> (u16, Seq<char>) {
    if action == Some("GetProtocolInfo"@) {
        (
            HTTP_OK,
            envelope_text(
                CM_SERVICE@,
                "GetProtocolInfo"@,
                "<Source>"@ + PROTOCOL_INFO@ + "</Source><Sink></Sink>"@,
            ),
        )
    } else if action == Some("GetCurrentConnectionIDs"@) {
        (
            HTTP_OK,
            envelope_text(
                CM_SERVICE@,
                "GetCurrentConnectionIDs"@,
                "<ConnectionIDs>0</ConnectionIDs>"@,
            ),
        )
    } else if action == Some("GetCurrentConnectionInfo"@) {
        (
            HTTP_OK,
            envelope_text(
                CM_SERVICE@,
                "GetCurrentConnectionInfo"@,
                "<RcsID>-1</RcsID><AVTransportID>-1</AVTransportID><ProtocolInfo></ProtocolInfo><PeerConnectionManager></PeerConnectionManager><PeerConnectionID>-1</PeerConnectionID><Direction>Output</Direction><Status>OK</Status>"@,
            ),
        )
    } else {
        invalid_action_reply()
    }
}

/// Status code and body answering a ConnectionManager action.
pub fn connection_manager(action: Option<&str>) -> (r: (u16, String))
    ensures
        (r.0, r.1@) == connection_manager_reply(action.deep_view()),
{
    if action_is(action, "GetProtocolInfo") {
        let mut inner = String::new();
        inner.append("<Source>");
        inner.append(PROTOCOL_INFO);
        inner.append("</Source><Sink></Sink>");
        (HTTP_OK, envelope(CM_SERVICE, "GetProtocolInfo", inner.as_str()))
    } else if action_is(action, "GetCurrentConnectionIDs") {
        (
            HTTP_OK,
            envelope(CM_SERVICE, "GetCurrentConnectionIDs", "<ConnectionIDs>0</ConnectionIDs>"),
        )
    } else if action_is(action, "GetCurrentConnectionInfo") {
        (
            HTTP_OK,
            envelope(
                CM_SERVICE,
                "GetCurrentConnectionInfo",
                "<RcsID>-1</RcsID><AVTransportID>-1</AVTransportID><ProtocolInfo></ProtocolInfo><PeerConnectionManager></PeerConnectionManager><PeerConnectionID>-1</PeerConnectionID><Direction>Output</Direction><Status>OK</Status>",
            ),
        )
    } else {
        (HTTP_INTERNAL_SERVER_ERROR, fault(401, "Invalid Action"))
    }
}

/// What the ContentDirectory does with an action: `Browse` needs the disk;
/// the other actions are answered at once.
pub enum CdAction {
    Browse,
    Reply(u16, String),
}

/// The immediate ContentDirectory replies: no search or sort capability,
/// system update ID `1`; any action other than these and `Browse` is
/// refused with UPnP error 401.
pub open spec fn content_directory_reply(action: Option<Seq<char>>) -> Option<(u16, Seq<char>)> {
    if action == Some("Browse"@) {
        None
    } else if action == Some("GetSearchCapabilities"@) {
        Some((HTTP_OK, envelope_text(CD_SERVICE@, "GetSearchCapabilities"@, "<SearchCaps></SearchCaps>"@)))
    } else if action == Some("GetSortCapabilities"@) {
        Some((HTTP_OK, envelope_text(CD_SERVICE@, "GetSortCapabilities"@, "<SortCaps></SortCaps>"@)))
    } else if action == Some("GetSystemUpdateID"@) {
        Some((HTTP_OK, envelope_text(CD_SERVICE@, "GetSystemUpdateID"@, "<Id>1</Id>"@)))
    } else {
        Some(invalid_action_reply())
    }
}

pub fn content_directory_action(action: Option<&str>) -> (r: CdAction)
    ensures
        match content_directory_reply(action.deep_view()) {
            None => r is Browse,
            Some((code, body)) => r matches CdAction::Reply(c, b) && c == code && b@ == body,
        },
{
    if action_is(action, "Browse") {
        CdAction::Browse
    } else if action_is(action, "GetSearchCapabilities") {
        CdAction::Reply(
            HTTP_OK,
            envelope(CD_SERVICE, "GetSearchCapabilities", "<SearchCaps></SearchCaps>"),
        )
    } else if action_is(action, "GetSortCapabilities") {
        CdAction::Reply(HTTP_OK, envelope(CD_SERVICE, "GetSortCapabilities", "<SortCaps></SortCaps>"))
    } else if action_is(action, "GetSystemUpdateID") {
        CdAction::Reply(HTTP_OK, envelope(CD_SERVICE, "GetSystemUpdateID", "<Id>1</Id>"))
    } else {
        CdAction::Reply(HTTP_INTERNAL_SERVER_ERROR, fault(401, "Invalid Action"))
    }
}

} // verus!
