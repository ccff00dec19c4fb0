use server_upnp::ssdp::{
    alive_messages, byebye_messages, drop_gone, header_value, interface_check, ipv4_text,
    location_url, msearch_replies, msearch_target, needs_join, record_join, targets, usable_ipv4,
    Ipv4, JoinOutcome, ALIVE_EVERY, MAX_AGE, SERVER_ID,
};

fn ip(a: u8, b: u8, c: u8, d: u8) -> Ipv4 {
    Ipv4 { a, b, c, d }
}

fn pair(a: &str, b: &str) -> (String, String) {
    (a.to_string(), b.to_string())
}

const LOCATION: &str = "http://10.0.0.2:8200/desc.xml";

#[test]
fn constants() {
    assert_eq!(SERVER_ID, "Windows/11 UPnP/1.0 server_upnp/1.0");
    assert_eq!(MAX_AGE, 1800);
    assert_eq!(ALIVE_EVERY, 20);
}

#[test]
fn announced_targets() {
    assert_eq!(
        targets("abc"),
        vec![
            pair("upnp:rootdevice", "uuid:abc::upnp:rootdevice"),
            pair("uuid:abc", "uuid:abc"),
            pair(
                "urn:schemas-upnp-org:device:MediaServer:1",
                "uuid:abc::urn:schemas-upnp-org:device:MediaServer:1"
            ),
            pair(
                "urn:schemas-upnp-org:service:ContentDirectory:1",
                "uuid:abc::urn:schemas-upnp-org:service:ContentDirectory:1"
            ),
            pair(
                "urn:schemas-upnp-org:service:ConnectionManager:1",
                "uuid:abc::urn:schemas-upnp-org:service:ConnectionManager:1"
            ),
        ]
    );
}

#[test]
fn header_value_ignores_the_name_case_and_trims() {
    let msg = "M-SEARCH * HTTP/1.1\r\nHOST: 239.255.255.250:1900\r\nst:  ssdp:all \r\nMX: 2\r\n\r\n";
    assert_eq!(header_value(msg, "ST"), Some("ssdp:all".to_string()));
    assert_eq!(header_value(msg, "st"), Some("ssdp:all".to_string()));
    assert_eq!(header_value(msg, "Host"), Some("239.255.255.250:1900".to_string()));
    assert_eq!(header_value(msg, "MAN"), None);
    assert_eq!(header_value("A: 1\nA: 2\n", "a"), Some("1".to_string()));
    assert_eq!(header_value(" ST :x", "ST"), Some("x".to_string()));
}

#[test]
fn search_target_of_a_datagram() {
    assert_eq!(
        msearch_target("M-SEARCH * HTTP/1.1\r\nST: upnp:rootdevice\r\n\r\n"),
        Some("upnp:rootdevice".to_string())
    );
    assert_eq!(msearch_target("M-SEARCH * HTTP/1.1\r\nMX: 1\r\n\r\n"), None);
    assert_eq!(msearch_target("NOTIFY * HTTP/1.1\r\nST: ssdp:all\r\n\r\n"), None);
}

#[test]
fn search_replies_for_one_target() {
    let r = msearch_replies("upnp:rootdevice", "abc", LOCATION, 784111777);
    assert_eq!(
        r,
        vec!["HTTP/1.1 200 OK\r\nCACHE-CONTROL: max-age=1800\r\nDATE: Sun, 06 Nov 1994 08:49:37 GMT\r\nEXT:\r\nLOCATION: http://10.0.0.2:8200/desc.xml\r\nSERVER: Windows/11 UPnP/1.0 server_upnp/1.0\r\nST: upnp:rootdevice\r\nUSN: uuid:abc::upnp:rootdevice\r\nCONTENT-LENGTH: 0\r\n\r\n".to_string()]
    );
}

#[test]
fn search_replies_for_all_and_for_none() {
    let all = msearch_replies("ssdp:all", "abc", LOCATION, 0);
    assert_eq!(all.len(), 5);
    assert!(all[0].contains("DATE: Thu, 01 Jan 1970 00:00:00 GMT\r\n"));
    assert!(all[1].contains("\r\nST: uuid:abc\r\nUSN: uuid:abc\r\n"));
    assert!(msearch_replies("urn:other", "abc", LOCATION, 0).is_empty());
    assert_eq!(msearch_replies("uuid:abc", "abc", LOCATION, 0).len(), 1);
}

#[test]
fn alive_and_byebye_announcements() {
    let alive = alive_messages(LOCATION, "abc");
    assert_eq!(alive.len(), 5);
    assert_eq!(
        alive[0],
        "NOTIFY * HTTP/1.1\r\nHOST: 239.255.255.250:1900\r\nCACHE-CONTROL: max-age=1800\r\nLOCATION: http://10.0.0.2:8200/desc.xml\r\nNT: upnp:rootdevice\r\nNTS: ssdp:alive\r\nSERVER: Windows/11 UPnP/1.0 server_upnp/1.0\r\nUSN: uuid:abc::upnp:rootdevice\r\n\r\n"
    );
    let bye = byebye_messages("abc");
    assert_eq!(bye.len(), 5);
    assert_eq!(
        bye[1],
        "NOTIFY * HTTP/1.1\r\nHOST: 239.255.255.250:1900\r\nNT: uuid:abc\r\nNTS: ssdp:byebye\r\nUSN: uuid:abc\r\n\r\n"
    );
}

#[test]
fn addresses_and_locations() {
    assert_eq!(ipv4_text(ip(192, 168, 1, 20)), "192.168.1.20");
    assert_eq!(ipv4_text(ip(0, 0, 0, 0)), "0.0.0.0");
    assert_eq!(location_url("192.168.1.2", 8200), "http://192.168.1.2:8200/desc.xml");
}

#[test]
fn usable_interfaces() {
    let addrs = vec![
        ip(127, 0, 0, 1),
        ip(192, 168, 1, 5),
        ip(169, 254, 3, 4),
        ip(10, 0, 0, 2),
        ip(192, 168, 1, 5),
        ip(127, 8, 8, 8),
    ];
    assert_eq!(usable_ipv4(&addrs), vec![ip(192, 168, 1, 5), ip(10, 0, 0, 2)]);
    assert!(usable_ipv4(&vec![]).is_empty());
}

#[test]
fn joining_interfaces() {
    let a = ip(192, 168, 1, 5);
    let b = ip(10, 0, 0, 2);
    let mut joined: Vec<Ipv4> = Vec::new();
    assert!(needs_join(&joined, a));
    assert!(record_join(&mut joined, a, JoinOutcome::Joined));
    assert_eq!(joined, vec![a]);
    assert!(!needs_join(&joined, a));
    assert!(!record_join(&mut joined, a, JoinOutcome::AlreadyMember));
    assert_eq!(joined, vec![a]);
    assert!(!record_join(&mut joined, b, JoinOutcome::Failed));
    assert_eq!(joined, vec![a]);
    // A membership the system kept still adds the interface.
    assert!(record_join(&mut joined, b, JoinOutcome::AlreadyMember));
    assert_eq!(joined, vec![a, b]);
    assert!(!record_join(&mut joined, b, JoinOutcome::Joined));
    assert_eq!(joined, vec![a, b]);
}

#[test]
fn an_interface_that_comes_back_is_joined_again() {
    let a = ip(192, 168, 1, 5);
    let b = ip(10, 0, 0, 2);
    let mut joined = vec![a, b];
    let gone = drop_gone(&mut joined, &vec![b]);
    assert_eq!(gone, vec![a]);
    assert_eq!(joined, vec![b]);
    assert!(needs_join(&joined, a));
    let gone = drop_gone(&mut joined, &vec![a, b]);
    assert!(gone.is_empty());
    assert_eq!(joined, vec![b]);
}

#[test]
fn announcements_every_twenty_checks_or_on_a_new_interface() {
    assert_eq!(interface_check(0, false), (1, false));
    assert_eq!(interface_check(0, true), (1, true));
    assert_eq!(interface_check(19, false), (20, true));
    assert_eq!(interface_check(20, false), (21, false));
    assert_eq!(interface_check(39, false), (40, true));
}
