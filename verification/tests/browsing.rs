use server_upnp::browse::{
    browse_after_stat, browse_listing, browse_reply, browse_request, browse_response, BrowseNext,
    BrowseRequest,
};
use server_upnp::didl::{container_didl, dlna_features, item_didl};
use server_upnp::listing::{sorted_children, DirEntry};
use server_upnp::media::{fold_accents, is_media_file, mime_for, sort_key, upnp_class};
use server_upnp::soap::fault;
use server_upnp::state::{parse_port, AppState};

fn state() -> AppState {
    AppState {
        port: 8200,
        root: "/srv/media".to_string(),
        friendly_name: "Mes films".to_string(),
        uuid: "u".to_string(),
        separator: '/',
    }
}

fn entry(name: &str, is_dir: bool, size: u64) -> DirEntry {
    DirEntry { name: name.to_string(), is_dir, size }
}

fn entries() -> Vec<DirEntry> {
    vec![
        entry("b.mp3", false, 10),
        entry("Zeta", true, 0),
        entry("notes.txt", false, 1),
        entry("Été.mkv", false, 20),
        entry("alpha", true, 0),
        entry("Thumbs.db", false, 5),
    ]
}

fn request(rel: &str, metadata: bool, start: usize, count: usize) -> BrowseRequest {
    BrowseRequest {
        rel: rel.to_string(),
        full: format!("/srv/media/{rel}"),
        metadata,
        start,
        count,
    }
}

const BASE: &str = "http://10.0.0.2:8200";

#[test]
fn resolve_stays_under_the_root() {
    let st = state();
    assert_eq!(st.resolve(""), Some("/srv/media".to_string()));
    assert_eq!(st.resolve("a/b"), Some("/srv/media/a/b".to_string()));
    assert_eq!(st.resolve("a//b/"), Some("/srv/media/a/b".to_string()));
    assert_eq!(st.resolve("/a"), Some("/srv/media/a".to_string()));
    assert_eq!(st.resolve("a/../b"), None);
    assert_eq!(st.resolve(".."), None);
    assert_eq!(st.resolve("./a"), None);
    assert_eq!(st.resolve("c:x"), None);
    assert_eq!(st.resolve("a\\..\\b"), None);
    assert_eq!(st.resolve("...x"), Some("/srv/media/...x".to_string()));
}

#[test]
fn resolve_under_a_root_ending_with_a_slash() {
    let mut st = state();
    st.root = "/".to_string();
    assert_eq!(st.resolve("a/b"), Some("/a/b".to_string()));
}

#[test]
fn resolve_with_the_windows_separator() {
    let mut st = state();
    st.separator = '\\';
    st.root = "\\\\?\\D:\\Videos".to_string();
    assert_eq!(st.resolve("Films/a.mkv"), Some("\\\\?\\D:\\Videos\\Films\\a.mkv".to_string()));
    assert_eq!(st.resolve("a\\b"), None);
    st.root = "D:\\".to_string();
    assert_eq!(st.resolve("a"), Some("D:\\a".to_string()));
    st.root = "C:".to_string();
    assert_eq!(st.resolve("a/b"), Some("C:a\\b".to_string()));
    st.root = "x/".to_string();
    assert_eq!(st.resolve("a"), Some("x/a".to_string()));
}

#[test]
fn parse_port_reads_a_u16() {
    assert_eq!(parse_port("8200"), Some(8200));
    assert_eq!(parse_port("+80"), Some(80));
    assert_eq!(parse_port("65535"), Some(65535));
    assert_eq!(parse_port("65536"), None);
    assert_eq!(parse_port(""), None);
    assert_eq!(parse_port(" 80"), None);
    assert_eq!(parse_port("-1"), None);
}

#[test]
fn media_files_by_extension() {
    assert!(is_media_file("film.mkv"));
    assert!(is_media_file("song.mp3"));
    assert!(is_media_file("photo.jpg"));
    assert!(is_media_file("SONG.MP3"));
    assert!(!is_media_file("Thumbs.db"));
    assert!(!is_media_file("notes.txt"));
    assert!(!is_media_file("noext"));
    assert!(!is_media_file("desktop.ini"));
}

#[test]
fn mime_and_class_of_files() {
    assert_eq!(mime_for("a.mp4"), "video/mp4");
    assert_eq!(mime_for("a.mp3"), "audio/mpeg");
    assert_eq!(mime_for("a.png"), "image/png");
    assert_eq!(mime_for("a.zzzz"), "application/octet-stream");
    assert_eq!(upnp_class("video/mp4"), "object.item.videoItem");
    assert_eq!(upnp_class("audio/mpeg"), "object.item.audioItem.musicTrack");
    assert_eq!(upnp_class("image/png"), "object.item.imageItem.photo");
    assert_eq!(upnp_class("application/octet-stream"), "object.item");
    assert_eq!(upnp_class("video"), "object.item");
}

#[test]
fn sort_keys_fold_case_and_accents() {
    assert_eq!(sort_key("Été"), "ete");
    assert_eq!(sort_key("À bout de souffle"), "a bout de souffle");
    assert_eq!(sort_key("Œuvre"), "oeuvre");
    assert_eq!(sort_key("ÆON Ñu Ç Ÿ"), "aeon nu c y");
    assert_eq!(sort_key("ABC"), "abc");
    assert_eq!(fold_accents("çàéîôùñýœæ"), "caeiounyoeae");
    assert_eq!(fold_accents("ß"), "ß");
    for t in ["çàéîôùñýœæ", "été", "plain", ""] {
        assert_eq!(fold_accents(&fold_accents(t)), fold_accents(t));
    }
}

#[test]
fn dlna_features_value() {
    assert_eq!(
        dlna_features(),
        "DLNA.ORG_OP=01;DLNA.ORG_CI=0;DLNA.ORG_FLAGS=01700000000000000000000000000000"
    );
}

#[test]
fn container_entry() {
    assert_eq!(
        container_didl("/a", "0", "Tom & Jerry"),
        "<container id=\"/a\" parentID=\"0\" restricted=\"1\" searchable=\"0\"><dc:title>Tom &amp; Jerry</dc:title><upnp:class>object.container.storageFolder</upnp:class></container>"
    );
}

#[test]
fn item_entry() {
    assert_eq!(
        item_didl(BASE, "/a.mp3", "0", "a.mp3", "a.mp3", 12),
        "<item id=\"/a.mp3\" parentID=\"0\" restricted=\"1\"><dc:title>a.mp3</dc:title><upnp:class>object.item.audioItem.musicTrack</upnp:class><res size=\"12\" protocolInfo=\"http-get:*:audio/mpeg:DLNA.ORG_OP=01;DLNA.ORG_CI=0;DLNA.ORG_FLAGS=01700000000000000000000000000000\">http://10.0.0.2:8200/media/a.mp3</res></item>"
    );
    let e = item_didl(BASE, "/d/x", "/d", "Tom & Jerry.mkv", "d/Tom & Jerry.mkv", 7);
    assert!(e.contains("<dc:title>Tom &amp; Jerry.mkv</dc:title>"));
    assert!(e.contains("protocolInfo=\"http-get:*:video/x-matroska:"));
    assert!(e.contains(">http://10.0.0.2:8200/media/d/Tom%20%26%20Jerry.mkv</res>"));
}

#[test]
fn listing_order_folders_first_then_folded_names() {
    let children = sorted_children("Dir", &entries());
    let names: Vec<&str> = children.iter().map(|c| c.name.as_str()).collect();
    assert_eq!(names, vec!["alpha", "Zeta", "b.mp3", "Été.mkv"]);
    let rels: Vec<&str> = children.iter().map(|c| c.rel.as_str()).collect();
    assert_eq!(rels, vec!["Dir/alpha", "Dir/Zeta", "Dir/b.mp3", "Dir/Été.mkv"]);
    assert_eq!(children[3].key, "ete.mkv");
    assert_eq!(children[3].size, 20);
    assert!(children[0].is_dir && children[1].is_dir && !children[2].is_dir);
}

#[test]
fn listing_at_the_root_and_ties() {
    let es = vec![entry("b.mp3", false, 1), entry("B.mp3", false, 2), entry("a", true, 0)];
    let children = sorted_children("", &es);
    let rels: Vec<&str> = children.iter().map(|c| c.rel.as_str()).collect();
    // Equal keys fall back to the names' code point order.
    assert_eq!(rels, vec!["a", "B.mp3", "b.mp3"]);
}

#[test]
fn browse_request_reads_the_body() {
    let body = "<s:Envelope><s:Body><u:Browse xmlns:u=\"urn:schemas-upnp-org:service:ContentDirectory:1\"><ObjectID> /Dir </ObjectID><BrowseFlag>BrowseDirectChildren</BrowseFlag><Filter>*</Filter><StartingIndex>1</StartingIndex><RequestedCount> 2 </RequestedCount><SortCriteria></SortCriteria></u:Browse></s:Body></s:Envelope>";
    let r = browse_request(&state(), body).ok().expect("a valid request");
    assert_eq!(r.rel, "Dir");
    assert_eq!(r.full, "/srv/media/Dir");
    assert!(!r.metadata);
    assert_eq!(r.start, 1);
    assert_eq!(r.count, 2);
}

#[test]
fn browse_request_defaults() {
    let r = browse_request(&state(), "<ObjectID>0</ObjectID><StartingIndex>x</StartingIndex>")
        .ok()
        .expect("a valid request");
    assert_eq!(r.rel, "");
    assert_eq!(r.full, "/srv/media");
    assert!(!r.metadata);
    assert_eq!(r.start, 0);
    assert_eq!(r.count, 0);
    let r = browse_request(&state(), "<ObjectID>0</ObjectID><BrowseFlag>BrowseMetadata</BrowseFlag>")
        .ok()
        .expect("a valid request");
    assert!(r.metadata);
}

#[test]
fn browse_request_errors() {
    assert_eq!(browse_request(&state(), "<Filter>*</Filter>").err(), Some((402, "Invalid Args")));
    assert_eq!(browse_request(&state(), "<ObjectID>/%FF</ObjectID>").err(), Some((701, "No such object")));
    assert_eq!(browse_request(&state(), "<ObjectID>/a/../b</ObjectID>").err(), Some((701, "No such object")));
}

#[test]
fn browse_metadata_of_the_root() {
    let st = state();
    match browse_after_stat(&st, BASE, &request("", true, 0, 0), true, 0) {
        BrowseNext::Reply(x) => {
            assert_eq!(x, browse_response(&container_didl("0", "-1", "Mes films"), 1, 1));
        }
        _ => panic!("a reply was expected"),
    }
}

#[test]
fn browse_metadata_of_a_file_and_a_folder() {
    let st = state();
    match browse_after_stat(&st, BASE, &request("Dir/b.mp3", true, 0, 0), false, 10) {
        BrowseNext::Reply(x) => {
            let e = item_didl(BASE, "/Dir/b.mp3", "/Dir", "b.mp3", "Dir/b.mp3", 10);
            assert_eq!(x, browse_response(&e, 1, 1));
        }
        _ => panic!("a reply was expected"),
    }
    match browse_after_stat(&st, BASE, &request("Dir/Sub", true, 0, 0), true, 0) {
        BrowseNext::Reply(x) => {
            assert_eq!(x, browse_response(&container_didl("/Dir/Sub", "/Dir", "Sub"), 1, 1));
        }
        _ => panic!("a reply was expected"),
    }
}

#[test]
fn browse_children_of_a_file_fails() {
    let st = state();
    assert!(matches!(
        browse_after_stat(&st, BASE, &request("a.mp3", false, 0, 0), false, 3),
        BrowseNext::Fault(701, "No such object")
    ));
    assert!(matches!(
        browse_after_stat(&st, BASE, &request("Dir", false, 0, 0), true, 0),
        BrowseNext::ListChildren
    ));
}

#[test]
fn browse_response_text() {
    assert_eq!(
        browse_response("", 0, 0),
        "<?xml version=\"1.0\" encoding=\"utf-8\"?><s:Envelope xmlns:s=\"http://schemas.xmlsoap.org/soap/envelope/\" s:encodingStyle=\"http://schemas.xmlsoap.org/soap/encoding/\"><s:Body><u:BrowseResponse xmlns:u=\"urn:schemas-upnp-org:service:ContentDirectory:1\"><Result>&lt;DIDL-Lite xmlns=&quot;urn:schemas-upnp-org:metadata-1-0/DIDL-Lite/&quot; xmlns:dc=&quot;http://purl.org/dc/elements/1.1/&quot; xmlns:upnp=&quot;urn:schemas-upnp-org:metadata-1-0/upnp/&quot;&gt;&lt;/DIDL-Lite&gt;</Result><NumberReturned>0</NumberReturned><TotalMatches>0</TotalMatches><UpdateID>1</UpdateID></u:BrowseResponse></s:Body></s:Envelope>"
    );
}

fn child_entries(names: &[(&str, bool, u64)]) -> String {
    let mut out = String::new();
    for (name, is_dir, size) in names {
        let rel = format!("Dir/{name}");
        let id = server_upnp::object_id::id_for(&rel);
        if *is_dir {
            out.push_str(&container_didl(&id, "/Dir", name));
        } else {
            out.push_str(&item_didl(BASE, &id, "/Dir", name, &rel, *size));
        }
    }
    out
}

#[test]
fn browse_listing_pages() {
    let es = entries();
    let page = browse_listing(BASE, &request("Dir", false, 1, 2), &es);
    assert_eq!(page, browse_response(&child_entries(&[("Zeta", true, 0), ("b.mp3", false, 10)]), 2, 4));
    let all = browse_listing(BASE, &request("Dir", false, 0, 0), &es);
    assert_eq!(
        all,
        browse_response(
            &child_entries(&[("alpha", true, 0), ("Zeta", true, 0), ("b.mp3", false, 10), ("Été.mkv", false, 20)]),
            4,
            4
        )
    );
    let rest = browse_listing(BASE, &request("Dir", false, 3, 10), &es);
    assert_eq!(rest, browse_response(&child_entries(&[("Été.mkv", false, 20)]), 1, 4));
    let past = browse_listing(BASE, &request("Dir", false, 4, 1), &es);
    assert_eq!(past, browse_response("", 0, 4));
    let huge = browse_listing(BASE, &request("Dir", false, 2, usize::MAX), &es);
    assert_eq!(huge, browse_response(&child_entries(&[("b.mp3", false, 10), ("Été.mkv", false, 20)]), 2, 4));
}

#[test]
fn browse_listing_is_stable_across_pages() {
    let es = entries();
    let mut joined = String::new();
    for start in 0..4 {
        let one = browse_listing(BASE, &request("Dir", false, start, 1), &es);
        assert!(one.contains("<NumberReturned>1</NumberReturned><TotalMatches>4</TotalMatches>"));
        joined.push_str(&one);
    }
    let names = ["alpha", "Zeta", "b.mp3", "Été.mkv"];
    let mut pos = 0;
    for n in names {
        let found = joined[pos..].find(&format!("&lt;dc:title&gt;{n}&lt;/dc:title&gt;")).expect("in order");
        pos += found + 1;
    }
}

#[test]
fn browse_reply_status() {
    assert_eq!(browse_reply(Ok("x".to_string())), (200, "x".to_string()));
    assert_eq!(browse_reply(Err((701, "No such object"))), (500, fault(701, "No such object")));
}
