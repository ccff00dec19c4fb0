//! DIDL-Lite entries describing folders and files to UPnP clients.

use vstd::prelude::*;
use vstd::utf8::encode_utf8;
use crate::format::{dec_digits, push_decimal};
use crate::media::{mime_for, mime_of, upnp_class, upnp_class_of};
use crate::object_id::{id_encode_bytes, push_id_encoded};
use crate::xml::{escape_xml, xml_escape};

verus! {

/// The fourth field of the DLNA protocolInfo: byte-range seeking allowed,
/// streaming transfer.
pub const DLNA_FEATURES: &'static str = "DLNA.ORG_OP=01;DLNA.ORG_CI=0;DLNA.ORG_FLAGS=01700000000000000000000000000000";

pub fn dlna_features() -> (r: &'static str)
    ensures
        r@ == DLNA_FEATURES@,
{
    DLNA_FEATURES
}

/// A folder entry; its title is escaped.
pub open spec fn container_didl_text(id: Seq<char>, parent: Seq<char>, title: Seq<char>) -> Seq<char> {
    "<container id=\""@ + id + "\" parentID=\""@ + parent
        + "\" restricted=\"1\" searchable=\"0\"><dc:title>"@ + xml_escape(title)
        + "</dc:title><upnp:class>object.container.storageFolder</upnp:class></container>"@
}

pub fn container_didl(id: &str, parent: &str, title: &str) -> (r: String)
    ensures
        r@ == container_didl_text(id@, parent@, title@),
{
    let mut s = String::new();
    s.append("<container id=\"");
    s.append(id);
    s.append("\" parentID=\"");
    s.append(parent);
    s.append("\" restricted=\"1\" searchable=\"0\"><dc:title>");
    let t = escape_xml(title);
    s.append(t.as_str());
    s.append("</dc:title><upnp:class>object.container.storageFolder</upnp:class></container>");
    assert(s@ =~= container_didl_text(id@, parent@, title@));
    s
}

/// The URL a file is served at: `/media/` and its percent-encoded relative
/// path, under `base`.
pub open spec fn media_url_text(base: Seq<char>, rel: Seq<char>) -> Seq<char> {
    base + "/media/"@ + id_encode_bytes(encode_utf8(rel))
}

/// A file entry: its title (escaped), UPnP class, size, MIME type and URL
/// (escaped).
pub open spec fn item_didl_text(
    base: Seq<char>,
    id: Seq<char>,
    parent: Seq<char>,
    name: Seq<char>,
    rel: Seq<char>,
    size: u64,
) -> Seq<char> {
    let mime = mime_of(name);
    "<item id=\""@ + id + "\" parentID=\""@ + parent + "\" restricted=\"1\"><dc:title>"@
        + xml_escape(name) + "</dc:title><upnp:class>"@ + upnp_class_of(mime)
        + "</upnp:class><res size=\""@ + dec_digits(size as nat) + "\" protocolInfo=\"http-get:*:"@
        + mime + ":"@ + DLNA_FEATURES@ + "\">"@ + xml_escape(media_url_text(base, rel))
        + "</res></item>"@
}

pub fn item_didl(base: &str, id: &str, parent: &str, name: &str, rel: &str, size: u64) -> (r: String)
    ensures
        r@ == item_didl_text(base@, id@, parent@, name@, rel@, size),
{
    let mime = mime_for(name);
    let mut url = String::new();
    url.append(base);
    url.append("/media/");
    push_id_encoded(&mut url, rel.as_bytes());
    let mut s = String::new();
    s.append("<item id=\"");
    s.append(id);
    s.append("\" parentID=\"");
    s.append(parent);
    s.append("\" restricted=\"1\"><dc:title>");
    let t = escape_xml(name);
    s.append(t.as_str());
    s.append("</dc:title><upnp:class>");
    s.append(upnp_class(mime.as_str()));
    s.append("</upnp:class><res size=\"");
    push_decimal(&mut s, size);
    s.append("\" protocolInfo=\"http-get:*:");
    s.append(mime.as_str());
    s.append(":");
    s.append(DLNA_FEATURES);
    s.append("\">");
    let u = escape_xml(url.as_str());
    s.append(u.as_str());
    s.append("</res></item>");
    assert(url@ =~= media_url_text(base@, rel@));
    assert(s@ =~= item_didl_text(base@, id@, parent@, name@, rel@, size));
    s
}

} // verus!
