use serveit::entries::Entry;
use serveit::response::{
    directory_response, error_response, file_response, resolve_request_path, ServeError,
};

fn body_text(body: Vec<u8>) -> String {
    String::from_utf8(body).unwrap()
}

const PREAMBLE: &str = "<!doctype html><html><head><meta charset='utf-8'><title>Index</title><style>body{font-family:system-ui,Arial,sans-serif} a{text-decoration:none}</style></head><body><h1>Index</h1><ul>";
const UPLINK: &str = "<li><a href=\"../\">../</a></li>";
const EPILOGUE: &str = "</ul></body></html>";

#[test]
fn error_statuses_and_bodies() {
    let r = error_response(ServeError::BadRequest);
    assert_eq!(r.status, 400);
    assert_eq!(r.content_type, "text/plain; charset=utf-8");
    assert_eq!(body_text(r.body), "Bad URL encoding");

    let r = error_response(ServeError::NotFound);
    assert_eq!(r.status, 404);
    assert_eq!(body_text(r.body), "Not found");

    let r = error_response(ServeError::ForbiddenFile);
    assert_eq!(r.status, 403);
    assert_eq!(body_text(r.body), "Cannot read file");

    let r = error_response(ServeError::ForbiddenDir);
    assert_eq!(r.status, 403);
    assert_eq!(body_text(r.body), "Cannot read directory");
}

#[test]
fn not_found_leaks_nothing() {
    // The body is the fixed message alone, no path or system detail.
    let r = error_response(ServeError::NotFound);
    assert_eq!(r.status, 404);
    assert_eq!(r.body, b"Not found".to_vec());
}

#[test]
fn file_response_txt() {
    let r = file_response("a.txt", b"hi".to_vec());
    assert_eq!(r.status, 200);
    assert_eq!(r.content_type, "text/plain");
    assert_eq!(r.body, b"hi".to_vec());
}

#[test]
fn file_response_unknown_extension() {
    let r = file_response("blob.zz9q", vec![0u8, 255u8, 7u8]);
    assert_eq!(r.status, 200);
    assert_eq!(r.content_type, "application/octet-stream");
    assert_eq!(r.body, vec![0u8, 255u8, 7u8]);
}

#[test]
fn file_response_guesses_from_name() {
    // The guessed type is a real lookup, not the name handed back.
    let r = file_response("page.html", b"<p>".to_vec());
    assert_eq!(r.content_type, "text/html");
    assert_ne!(r.content_type, "page.html");
}

#[test]
fn resolve_ok_and_bad() {
    assert_eq!(resolve_request_path("a%20b").unwrap(), b"a b".to_vec());
    assert_eq!(resolve_request_path("sub/b.txt").unwrap(), b"sub/b.txt".to_vec());
    let err = resolve_request_path("%zz").unwrap_err();
    assert_eq!(err.status, 400);
    assert_eq!(body_text(err.body), "Bad URL encoding");
    let err = resolve_request_path("abc%").unwrap_err();
    assert_eq!(err.status, 400);
}

#[test]
fn root_listing_scenario() {
    // Root holds a.txt and the subdirectory sub: one plain link, one
    // trailing-slash link, no up-link.
    let entries = vec![
        Entry { name: String::from("sub"), is_dir: true },
        Entry { name: String::from("a.txt"), is_dir: false },
    ];
    let r = directory_response(entries, true);
    assert_eq!(r.status, 200);
    assert_eq!(r.content_type, "text/html; charset=utf-8");
    let expected = format!(
        "{}<li><a href=\"a.txt\">a.txt</a></li><li><a href=\"sub/\">sub/</a></li>{}",
        PREAMBLE, EPILOGUE
    );
    assert_eq!(body_text(r.body), expected);
}

#[test]
fn sub_listing_scenario() {
    // A non-root directory holding b.txt: an up-link, then the entry.
    let entries = vec![Entry { name: String::from("b.txt"), is_dir: false }];
    let r = directory_response(entries, false);
    assert_eq!(r.status, 200);
    let expected = format!(
        "{}{}<li><a href=\"b.txt\">b.txt</a></li>{}",
        PREAMBLE, UPLINK, EPILOGUE
    );
    assert_eq!(body_text(r.body), expected);
}

#[test]
fn uplink_iff_not_root() {
    let make = || vec![
        Entry { name: String::from("x"), is_dir: false },
        Entry { name: String::from("d"), is_dir: true },
    ];
    let root = body_text(directory_response(make(), true).body);
    let sub = body_text(directory_response(make(), false).body);
    assert_eq!(root.matches(UPLINK).count(), 0);
    assert_eq!(sub.matches(UPLINK).count(), 1);
    // The up-link is the one difference, placed right after the preamble.
    let inserted = format!("{}{}", PREAMBLE, UPLINK);
    assert_eq!(sub, root.replacen(PREAMBLE, &inserted, 1));
}

#[test]
fn listing_encodes_href_and_escapes_label() {
    let entries = vec![Entry { name: String::from("my file#1 <&>.txt"), is_dir: false }];
    let body = body_text(directory_response(entries, true).body);
    assert!(body.contains("href=\"my%20file%231%20%3C%26%3E.txt\""));
    assert!(body.contains(">my file#1 &lt;&amp;&gt;.txt</a>"));
}

#[test]
fn listing_order_is_deterministic() {
    // The same entries in two arrival orders render identically.
    let a = vec![
        Entry { name: String::from("b"), is_dir: false },
        Entry { name: String::from("Z"), is_dir: true },
        Entry { name: String::from("a"), is_dir: false },
    ];
    let b = vec![
        Entry { name: String::from("a"), is_dir: false },
        Entry { name: String::from("b"), is_dir: false },
        Entry { name: String::from("Z"), is_dir: true },
    ];
    let ra = body_text(directory_response(a, true).body);
    let rb = body_text(directory_response(b, true).body);
    assert_eq!(ra, rb);
    // byte-wise, case-sensitive: capitals first
    let zi = ra.find("Z/").unwrap();
    let ai = ra.find(">a<").unwrap();
    let bi = ra.find(">b<").unwrap();
    assert!(zi < ai && ai < bi);
}
