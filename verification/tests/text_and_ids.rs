use server_upnp::format::{decimal, parse_decimal, trim_str};
use server_upnp::object_id::{id_for, name_of, parent_of, rel_for_id};
use server_upnp::xml::{escape_xml, unescape_xml};

fn chars(s: &str) -> Vec<char> {
    s.chars().collect()
}

#[test]
fn escape_xml_replaces_the_five_markup_characters() {
    assert_eq!(escape_xml("a<b>&\"c'"), "a&lt;b&gt;&amp;&quot;c&apos;");
    assert_eq!(escape_xml("plain text"), "plain text");
    assert_eq!(escape_xml(""), "");
}

#[test]
fn escape_xml_leaves_no_markup() {
    let e = escape_xml("<<&>>\"'");
    assert!(!e.contains('<') && !e.contains('>') && !e.contains('"') && !e.contains('\''));
}

#[test]
fn unescape_xml_reads_entities() {
    assert_eq!(unescape_xml("&lt;x&gt; &quot;y&quot; &apos;z&apos;"), "<x> \"y\" 'z'");
    // `&amp;` is read last: an escaped entity stays an entity.
    assert_eq!(unescape_xml("&amp;lt;"), "&lt;");
    assert_eq!(unescape_xml("&lt;x&gt; &amp;amp;"), "<x> &amp;");
}

#[test]
fn unescape_undoes_escape() {
    for s in ["Tom & Jerry <\"'>", "&amp;lt;", "", "Été à Paris", "&&<<>>"] {
        assert_eq!(unescape_xml(&escape_xml(s)), s);
    }
}

#[test]
fn id_of_root_is_zero() {
    assert_eq!(id_for(""), "0");
}

#[test]
fn id_for_percent_encodes_all_but_the_kept_bytes() {
    assert_eq!(id_for("Films/Été 2020"), "/Films/%C3%89t%C3%A9%202020");
    assert_eq!(id_for("a-b_c.d~e/f"), "/a-b_c.d~e/f");
    assert_eq!(id_for("0"), "/0");
    assert_eq!(id_for("x&y#z"), "/x%26y%23z");
}

#[test]
fn rel_for_id_reads_ids_back() {
    assert_eq!(rel_for_id("0"), Some(String::new()));
    assert_eq!(rel_for_id(""), Some(String::new()));
    assert_eq!(rel_for_id("/Films/%C3%89t%C3%A9%202020"), Some("Films/Été 2020".to_string()));
    assert_eq!(rel_for_id("abc"), Some("abc".to_string()));
    assert_eq!(rel_for_id("/0"), Some("0".to_string()));
    assert_eq!(rel_for_id("/a%2fb"), Some("a/b".to_string()));
    assert_eq!(rel_for_id("/100%"), Some("100%".to_string()));
}

#[test]
fn rel_for_id_refuses_invalid_utf8() {
    assert_eq!(rel_for_id("/%FF"), None);
    assert_eq!(rel_for_id("%C3"), None);
}

#[test]
fn ids_round_trip() {
    for rel in ["", "a", "0", "Films/Été 2020", "x&y#z/%41", "dir/sub dir/f.mkv"] {
        assert_eq!(rel_for_id(&id_for(rel)), Some(rel.to_string()));
    }
}

#[test]
fn parent_and_name_of_a_path() {
    assert_eq!(parent_of("a/b/c"), "a/b");
    assert_eq!(parent_of("a"), "");
    assert_eq!(parent_of(""), "");
    assert_eq!(name_of("a/b/c"), "c");
    assert_eq!(name_of("c"), "c");
    assert_eq!(format!("{}/{}", parent_of("a/b/c"), name_of("a/b/c")), "a/b/c");
}

#[test]
fn decimal_text() {
    assert_eq!(decimal(0), "0");
    assert_eq!(decimal(8200), "8200");
    assert_eq!(decimal(u64::MAX), "18446744073709551615");
}

#[test]
fn parse_decimal_reads_unsigned_numbers() {
    assert_eq!(parse_decimal(&chars("42"), 100), Some(42));
    assert_eq!(parse_decimal(&chars("+7"), 100), Some(7));
    assert_eq!(parse_decimal(&chars("100"), 100), Some(100));
    assert_eq!(parse_decimal(&chars("101"), 100), None);
    assert_eq!(parse_decimal(&chars(""), 100), None);
    assert_eq!(parse_decimal(&chars("+"), 100), None);
    assert_eq!(parse_decimal(&chars("-1"), 100), None);
    assert_eq!(parse_decimal(&chars("1a"), 100), None);
    assert_eq!(parse_decimal(&chars(" 1"), 100), None);
    assert_eq!(parse_decimal(&chars("18446744073709551615"), u64::MAX), Some(u64::MAX));
    assert_eq!(parse_decimal(&chars("18446744073709551616"), u64::MAX), None);
}

#[test]
fn trim_removes_unicode_whitespace() {
    assert_eq!(trim_str("  a b \t\r\n"), chars("a b"));
    assert_eq!(trim_str("\u{a0}\u{3000}x\u{2003}"), chars("x"));
    assert_eq!(trim_str("   "), chars(""));
}
