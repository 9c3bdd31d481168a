use serveit::entries::{name_le, sort_entries, Entry};
use serveit::escape::html_escape;
use serveit::percent::decode_path;

#[test]
fn escape_all_significant_characters() {
    assert_eq!(html_escape("<a&\"'>"), "&lt;a&amp;&quot;&#39;&gt;");
    assert_eq!(html_escape("&&"), "&amp;&amp;");
    assert_eq!(html_escape(""), "");
}

#[test]
fn escape_keeps_plain_text() {
    assert_eq!(html_escape("hello world_1.txt"), "hello world_1.txt");
    assert_eq!(html_escape("héllo/ü"), "héllo/ü");
}

#[test]
fn decode_plain_and_encoded() {
    assert_eq!(decode_path("My%20File.txt").unwrap(), b"My File.txt".to_vec());
    assert_eq!(decode_path("plain").unwrap(), b"plain".to_vec());
    assert_eq!(decode_path("").unwrap(), Vec::<u8>::new());
    // unencoded '+' is kept, not turned into a space
    assert_eq!(decode_path("a+b").unwrap(), b"a+b".to_vec());
    // lower-case hex digits are accepted
    assert_eq!(decode_path("%2f%2F").unwrap(), b"//".to_vec());
}

#[test]
fn decode_rejects_invalid_encoding() {
    assert!(decode_path("%").is_none());
    assert!(decode_path("%2").is_none());
    assert!(decode_path("%zz").is_none());
    assert!(decode_path("abc%G1").is_none());
    assert!(decode_path("ok%20bad%").is_none());
}

#[test]
fn decode_inverts_encode() {
    // decode(encode(name)) == name, through the same encoder the listing uses
    let names = ["a b", "100%", "x#y?z", "h\u{e9}llo", "a+b", "~tilde._-", "[]"];
    for name in names {
        let encoded = urlencoding::encode(name);
        assert_eq!(decode_path(&encoded).unwrap(), name.as_bytes().to_vec());
    }
}

#[test]
fn name_order_is_bytewise_case_sensitive() {
    assert!(name_le("B", "a"));
    assert!(!name_le("a", "B"));
    assert!(name_le("a", "ab"));
    assert!(!name_le("ab", "a"));
    assert!(name_le("same", "same"));
}

#[test]
fn sort_is_stable_under_arrival_order() {
    let mk = |names: &[&str]| -> Vec<Entry> {
        names.iter().map(|n| Entry { name: n.to_string(), is_dir: false }).collect()
    };
    let sorted_names = |v: Vec<Entry>| -> Vec<String> {
        sort_entries(v).into_iter().map(|e| e.name).collect()
    };
    let a = sorted_names(mk(&["c", "a", "B", "ab"]));
    let b = sorted_names(mk(&["ab", "B", "c", "a"]));
    assert_eq!(a, b);
    assert_eq!(a, vec!["B".to_string(), "a".to_string(), "ab".to_string(), "c".to_string()]);
}
