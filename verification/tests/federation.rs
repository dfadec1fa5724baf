use minimint_bridge::federation::{
    bytes_less, label_for_members, normalize_all, sanitize_config, sort_members, write_connect_json,
};
use minimint_bridge::hex::hex_lower_bytes;

fn members(list: &[(u16, &str)]) -> Vec<(u16, String)> {
    list.iter().map(|(id, url)| (*id, url.to_string())).collect()
}

#[test]
fn label_of_signet_federation() {
    let l = label_for_members(&members(&[(0, "wss://fm-signet.sirion.io:443")]));
    assert_eq!(l, Some(String::from("7d2ce1a7dec8")));
}

#[test]
fn label_ignores_default_port() {
    let a = label_for_members(&members(&[(0, "wss://fm-signet.sirion.io:443")]));
    let b = label_for_members(&members(&[(0, "wss://fm-signet.sirion.io")]));
    assert_eq!(a, b);
}

#[test]
fn label_of_other_federation() {
    let l = label_for_members(&members(&[(0, "ws://foobar.nonexisting")]));
    assert_eq!(l, Some(String::from("f94ecec7113c")));
}

#[test]
fn label_ignores_member_order() {
    let a = label_for_members(&members(&[(0, "wss://a.example"), (1, "wss://b.example"), (2, "wss://c.example")]));
    let b = label_for_members(&members(&[(2, "wss://c.example"), (0, "wss://a.example"), (1, "wss://b.example")]));
    assert!(a.is_some());
    assert_eq!(a, b);
}

#[test]
fn label_depends_on_members() {
    let a = label_for_members(&members(&[(0, "wss://a.example")]));
    let b = label_for_members(&members(&[(1, "wss://a.example")]));
    assert_ne!(a, b);
}

#[test]
fn invalid_url_has_no_label() {
    assert_eq!(label_for_members(&members(&[(0, "not a url")])), None);
    assert_eq!(label_for_members(&members(&[(0, "wss://ok.example"), (1, "::")])), None);
}

#[test]
fn label_has_twelve_hex_digits() {
    let l = label_for_members(&members(&[(3, "wss://x.example:8080/path")])).unwrap();
    assert_eq!(l.len(), 12);
    assert!(l.chars().all(|c| c.is_ascii_hexdigit() && !c.is_ascii_uppercase()));
}

#[test]
fn sanitized_config_is_sorted_compact_json() {
    let cfg = sanitize_config(&members(&[(1, "wss://b.example"), (0, "wss://a.example:443")])).unwrap();
    assert_eq!(
        String::from_utf8(cfg).unwrap(),
        "{\"members\":[[0,\"wss://a.example/\"],[1,\"wss://b.example/\"]]}"
    );
}

#[test]
fn empty_federation_config() {
    let cfg = sanitize_config(&members(&[])).unwrap();
    assert_eq!(String::from_utf8(cfg).unwrap(), "{\"members\":[]}");
}

#[test]
fn connect_json_escapes_quotes() {
    let json = write_connect_json(&members(&[(65535, "a\"b\\c\n")]));
    assert_eq!(
        String::from_utf8(json).unwrap(),
        "{\"members\":[[65535,\"a\\\"b\\\\c\\n\"]]}"
    );
}

#[test]
fn normalize_all_serializes_urls() {
    let n = normalize_all(&members(&[(0, "WSS://Example.COM:443"), (1, "ws://x.example:80/a/../b")])).unwrap();
    assert_eq!(n, members(&[(0, "wss://example.com/"), (1, "ws://x.example/b")]));
}

#[test]
fn sort_is_stable() {
    let sorted = sort_members(members(&[(2, "b"), (1, "a"), (0, "b"), (3, "a")]));
    assert_eq!(sorted, members(&[(1, "a"), (3, "a"), (2, "b"), (0, "b")]));
}

#[test]
fn byte_order_is_lexicographic() {
    assert!(bytes_less(b"a", b"b"));
    assert!(bytes_less(b"a", b"ab"));
    assert!(!bytes_less(b"ab", b"a"));
    assert!(!bytes_less(b"abc", b"abc"));
    assert!(bytes_less(b"", b"a"));
    assert!(!bytes_less(b"b", b"abc"));
}

#[test]
fn hex_is_lower_case() {
    let h = hex_lower_bytes(&[0xde, 0xad, 0x00, 0x0f, 0xff]);
    assert_eq!(String::from_utf8(h).unwrap(), "dead000fff");
}
