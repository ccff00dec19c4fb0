use std::collections::hash_map::DefaultHasher;
use std::hash::{Hash, Hasher};

use server_upnp::identity::{friendly_name, identity_seed, stable_uuid, uuid_from_hashes};
use server_upnp::web::{
    event_method, fallback_base, host_base, soap_action_name, subscription_id, EventMethod,
    SUBSCRIPTION_TIMEOUT,
};

fn std_hashes(seed: &str) -> (u64, u64) {
    let mut h1 = DefaultHasher::new();
    seed.hash(&mut h1);
    let mut h2 = DefaultHasher::new();
    (seed, 0xC0FF_EE00u32).hash(&mut h2);
    (h1.finish(), h2.finish())
}

#[test]
fn uuid_layout_of_two_hashes() {
    assert_eq!(
        uuid_from_hashes(0x0123_4567_89ab_cdef, 0xfedc_ba98_7654_3210),
        "01234567-89ab-cdef-fedc-ba9876543210"
    );
    assert_eq!(uuid_from_hashes(0, 0), "00000000-0000-0000-0000-000000000000");
    assert_eq!(uuid_from_hashes(u64::MAX, u64::MAX), "ffffffff-ffff-ffff-ffff-ffffffffffff");
}

#[test]
fn stable_uuid_comes_from_the_seed_hashes() {
    let seed = "/srv/media|8200|Mes films";
    let (a, b) = std_hashes(seed);
    let expected = format!(
        "{:08x}-{:04x}-{:04x}-{:04x}-{:012x}",
        (a >> 32) as u32,
        (a >> 16) as u16,
        a as u16,
        (b >> 48) as u16,
        b & 0xFFFF_FFFF_FFFF
    );
    assert_eq!(stable_uuid(seed), expected);
    assert_eq!(stable_uuid(seed), stable_uuid(seed));
    assert_ne!(stable_uuid(seed), stable_uuid("/srv/media|8200|Autre nom"));
}

#[test]
fn stable_uuid_shape() {
    let u = stable_uuid("x");
    assert_eq!(u.len(), 36);
    for (i, c) in u.chars().enumerate() {
        if i == 8 || i == 13 || i == 18 || i == 23 {
            assert_eq!(c, '-');
        } else {
            assert!(c.is_ascii_hexdigit() && !c.is_ascii_uppercase());
        }
    }
}

#[test]
fn identity_seed_joins_root_port_and_name() {
    assert_eq!(identity_seed("/srv/media", 8200, "Mes films"), "/srv/media|8200|Mes films");
    assert_eq!(identity_seed("", 0, ""), "|0|");
}

#[test]
fn friendly_name_choices() {
    assert_eq!(friendly_name(Some("  Mes films "), Some("Videos")), "Mes films");
    assert_eq!(friendly_name(Some("   "), Some("Videos")), "Videos");
    assert_eq!(friendly_name(None, Some("Videos")), "Videos");
    assert_eq!(friendly_name(None, Some("")), "Fichiers");
    assert_eq!(friendly_name(None, None), "Fichiers");
}

#[test]
fn soap_action_names() {
    assert_eq!(
        soap_action_name("\"urn:schemas-upnp-org:service:ContentDirectory:1#Browse\""),
        "Browse"
    );
    assert_eq!(soap_action_name("  \"urn:x#GetProtocolInfo\"  "), "GetProtocolInfo");
    assert_eq!(soap_action_name("Browse"), "Browse");
    assert_eq!(soap_action_name("a#b#c"), "c");
    assert_eq!(soap_action_name("urn:x#"), "");
    assert_eq!(soap_action_name("\"\"\""), "");
    assert_eq!(soap_action_name("\"\"a#b\"\""), "b");
}

#[test]
fn base_urls() {
    assert_eq!(host_base(Some("10.0.0.2:8200")), Some("http://10.0.0.2:8200".to_string()));
    assert_eq!(host_base(Some("")), None);
    assert_eq!(host_base(None), None);
    assert_eq!(fallback_base(Some("192.168.1.4"), 8200), "http://192.168.1.4:8200");
    assert_eq!(fallback_base(None, 80), "http://127.0.0.1:80");
}

#[test]
fn event_methods_and_statuses() {
    assert!(matches!(event_method("SUBSCRIBE"), EventMethod::Subscribe));
    assert!(matches!(event_method("UNSUBSCRIBE"), EventMethod::Unsubscribe));
    assert!(matches!(event_method("GET"), EventMethod::Other));
    assert!(matches!(event_method("subscribe"), EventMethod::Other));
    assert_eq!(event_method("SUBSCRIBE").status(), 200);
    assert_eq!(event_method("UNSUBSCRIBE").status(), 200);
    assert_eq!(event_method("POST").status(), 405);
    assert_eq!(SUBSCRIPTION_TIMEOUT, "Second-1800");
}

#[test]
fn subscription_ids() {
    assert_eq!(subscription_id("abc", 1), "uuid:abc-0001");
    assert_eq!(subscription_id("abc", 0xbeef), "uuid:abc-beef");
    assert_eq!(subscription_id("abc", 0x12345), "uuid:abc-12345");
    assert_ne!(subscription_id("abc", 1), subscription_id("abc", 2));
    assert_eq!(subscription_id("abc", 7), format!("uuid:{}-{:04x}", "abc", 7u64));
}
