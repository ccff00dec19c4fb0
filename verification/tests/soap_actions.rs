use server_upnp::soap::{
    arg, connection_manager, content_directory_action, envelope, fault, CdAction, CM_SERVICE,
    PROTOCOL_INFO,
};

const HEAD: &str = "<?xml version=\"1.0\" encoding=\"utf-8\"?><s:Envelope xmlns:s=\"http://schemas.xmlsoap.org/soap/envelope/\" s:encodingStyle=\"http://schemas.xmlsoap.org/soap/encoding/\"><s:Body>";

#[test]
fn arg_reads_a_plain_argument() {
    let body = "<s:Envelope><s:Body><u:Browse><ObjectID>0</ObjectID><BrowseFlag>BrowseMetadata</BrowseFlag></u:Browse></s:Body></s:Envelope>";
    assert_eq!(arg(body, "ObjectID"), Some("0".to_string()));
    assert_eq!(arg(body, "BrowseFlag"), Some("BrowseMetadata".to_string()));
    assert_eq!(arg(body, "Filter"), None);
}

#[test]
fn arg_skips_longer_tag_names() {
    let body = "<a><ObjectIDx>1</ObjectIDx><ObjectID>2</ObjectID></a>";
    assert_eq!(arg(body, "ObjectID"), Some("2".to_string()));
}

#[test]
fn arg_of_an_empty_element() {
    assert_eq!(arg("<Filter/>", "Filter"), Some(String::new()));
    assert_eq!(arg("<Filter />", "Filter"), Some(String::new()));
    assert_eq!(arg("<Filter></Filter>", "Filter"), Some(String::new()));
}

#[test]
fn arg_with_attributes_and_entities() {
    assert_eq!(arg("<X attr=\"1\">v</X>", "X"), Some("v".to_string()));
    assert_eq!(arg("<X>a&amp;b &lt;c&gt;</X>", "X"), Some("a&b <c>".to_string()));
}

#[test]
fn arg_of_an_unfinished_body() {
    assert_eq!(arg("<X>abc", "X"), None);
    assert_eq!(arg("<X", "X"), None);
    assert_eq!(arg("<X abc", "X"), None);
    assert_eq!(arg("nothing", "X"), None);
}

#[test]
fn envelope_wraps_the_response() {
    assert_eq!(
        envelope("urn:s", "Act", "<A>1</A>"),
        format!("{HEAD}<u:ActResponse xmlns:u=\"urn:s\"><A>1</A></u:ActResponse></s:Body></s:Envelope>")
    );
}

#[test]
fn fault_carries_the_upnp_error() {
    assert_eq!(
        fault(701, "No such object"),
        format!("{HEAD}<s:Fault><faultcode>s:Client</faultcode><faultstring>UPnPError</faultstring><detail><UPnPError xmlns=\"urn:schemas-upnp-org:control-1-0\"><errorCode>701</errorCode><errorDescription>No such object</errorDescription></UPnPError></detail></s:Fault></s:Body></s:Envelope>")
    );
    assert!(fault(1, "a<b").contains("<errorDescription>a&lt;b</errorDescription>"));
}

#[test]
fn connection_manager_answers_its_actions() {
    let (code, body) = connection_manager(Some("GetProtocolInfo"));
    assert_eq!(code, 200);
    assert_eq!(
        body,
        envelope(
            CM_SERVICE,
            "GetProtocolInfo",
            &format!("<Source>{PROTOCOL_INFO}</Source><Sink></Sink>")
        )
    );
    let (code, body) = connection_manager(Some("GetCurrentConnectionIDs"));
    assert_eq!(code, 200);
    assert_eq!(
        body,
        format!("{HEAD}<u:GetCurrentConnectionIDsResponse xmlns:u=\"urn:schemas-upnp-org:service:ConnectionManager:1\"><ConnectionIDs>0</ConnectionIDs></u:GetCurrentConnectionIDsResponse></s:Body></s:Envelope>")
    );
    let (code, body) = connection_manager(Some("GetCurrentConnectionInfo"));
    assert_eq!(code, 200);
    assert!(body.contains("<RcsID>-1</RcsID><AVTransportID>-1</AVTransportID><ProtocolInfo></ProtocolInfo><PeerConnectionManager></PeerConnectionManager><PeerConnectionID>-1</PeerConnectionID><Direction>Output</Direction><Status>OK</Status>"));
}

#[test]
fn connection_manager_refuses_other_actions() {
    assert_eq!(connection_manager(None), (500, fault(401, "Invalid Action")));
    assert_eq!(connection_manager(Some("Browse")), (500, fault(401, "Invalid Action")));
    assert_eq!(connection_manager(Some("getprotocolinfo")), (500, fault(401, "Invalid Action")));
}

#[test]
fn content_directory_actions() {
    assert!(matches!(content_directory_action(Some("Browse")), CdAction::Browse));
    match content_directory_action(Some("GetSystemUpdateID")) {
        CdAction::Reply(code, body) => {
            assert_eq!(code, 200);
            assert_eq!(
                body,
                format!("{HEAD}<u:GetSystemUpdateIDResponse xmlns:u=\"urn:schemas-upnp-org:service:ContentDirectory:1\"><Id>1</Id></u:GetSystemUpdateIDResponse></s:Body></s:Envelope>")
            );
        }
        CdAction::Browse => panic!("not a Browse"),
    }
    match content_directory_action(Some("GetSearchCapabilities")) {
        CdAction::Reply(code, body) => {
            assert_eq!(code, 200);
            assert!(body.contains("<SearchCaps></SearchCaps>"));
        }
        CdAction::Browse => panic!("not a Browse"),
    }
    match content_directory_action(Some("GetSortCapabilities")) {
        CdAction::Reply(code, body) => {
            assert_eq!(code, 200);
            assert!(body.contains("<SortCaps></SortCaps>"));
        }
        CdAction::Browse => panic!("not a Browse"),
    }
    match content_directory_action(None) {
        CdAction::Reply(code, body) => {
            assert_eq!(code, 500);
            assert_eq!(body, fault(401, "Invalid Action"));
        }
        CdAction::Browse => panic!("not a Browse"),
    }
}

#[test]
fn arg_reads_back_an_escaped_value() {
    for v in ["a<b>&c", "Tom & \"Jerry\" 'x'", "", "&amp;"] {
        let body = format!("<u:Browse><ObjectID>{}</ObjectID></u:Browse>", server_upnp::xml::escape_xml(v));
        assert_eq!(arg(&body, "ObjectID"), Some(v.to_string()));
    }
}
