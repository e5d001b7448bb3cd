use std::collections::HashMap;

use reqwest_memo::digest::fingerprint;
use reqwest_memo::middleware::{lookup, Lookup, MemoClientBuilder, RequestInfo, VcrCacheMiddleware};
use reqwest_memo::record::{decode_record, encode_record, CacheRecord};

fn request(method: &str, url: &str, body: Option<&[u8]>) -> RequestInfo {
    RequestInfo {
        method: method.to_string(),
        url: url.to_string(),
        headers: Vec::new(),
        body: body.map(|b| b.to_vec()),
    }
}

fn record(status: u16, headers: &[(&[u8], &[u8])], body: &[u8]) -> CacheRecord {
    CacheRecord {
        status,
        headers: headers.iter().map(|(n, v)| (n.to_vec(), v.to_vec())).collect(),
        body: body.to_vec(),
    }
}

fn same_record(a: &CacheRecord, b: &CacheRecord) -> bool {
    a.status == b.status && a.headers == b.headers && a.body == b.body
}

/// A store on a map from path to content and a transport that counts its calls,
/// driven through the library the way the interceptor drives the file system.
struct Harness {
    files: HashMap<String, Vec<u8>>,
    calls: usize,
}

impl Harness {
    fn new() -> Self {
        Harness { files: HashMap::new(), calls: 0 }
    }

    fn send(
        &mut self,
        mw: &VcrCacheMiddleware,
        req: &RequestInfo,
        transport: &dyn Fn(&RequestInfo) -> CacheRecord,
    ) -> CacheRecord {
        let path = mw.cache_file_path(req);
        let content = self.files.get(&path).cloned();
        match lookup(content.as_deref()) {
            Lookup::Hit(rec) => rec,
            Lookup::Miss => {
                self.calls += 1;
                let rec = transport(req);
                let p = mw.persist(req, &rec);
                self.files.insert(p.path, p.content);
                rec
            }
        }
    }
}

#[test]
fn fingerprint_is_deterministic() {
    let a = fingerprint("POST", "http://localhost:3000", Some(b"{\"query\":\"crab\"}"));
    let b = fingerprint("POST", "http://localhost:3000", Some(b"{\"query\":\"crab\"}"));
    assert_eq!(a, b);
    assert_eq!(a.len(), 64);
    assert!(a.chars().all(|c| c.is_ascii_digit() || ('a'..='f').contains(&c)));
}

#[test]
fn fingerprint_known_value() {
    assert_eq!(
        fingerprint("", "", None),
        "e3b0c44298fc1c149afbf4c8996fb92427ae41e4649b934ca495991b7852b855"
    );
    let mw = VcrCacheMiddleware::new("cache");
    assert_eq!(
        mw.cache_file_path(&request("GET", "https://httpbin.org/get?other", None)),
        "cache/9d734edfacdb4968bf6f1c90ee7adf5a274c63b5edc30605ea9933cca6d7792e.json"
    );
}

#[test]
fn fingerprint_is_sensitive() {
    let samples = [
        fingerprint("GET", "http://localhost:3000", None),
        fingerprint("POST", "http://localhost:3000", None),
        fingerprint("GET", "http://localhost:3001", None),
        fingerprint("GET", "http://localhost:3000", Some(b"a")),
        fingerprint("GET", "http://localhost:3000", Some(b"b")),
        fingerprint("POST", "http://localhost:3000", Some(b"{\"query\":\"crab\"}")),
    ];
    for i in 0..samples.len() {
        for j in 0..samples.len() {
            if i != j {
                assert_ne!(samples[i], samples[j]);
            }
        }
    }
}

#[test]
fn headers_do_not_change_the_path() {
    let mw = VcrCacheMiddleware::new("cache");
    let mut a = request("GET", "http://localhost:3000", None);
    let mut b = request("GET", "http://localhost:3000", None);
    a.headers.push((b"authorization".to_vec(), b"one".to_vec()));
    b.headers.push((b"accept".to_vec(), b"text/plain".to_vec()));
    b.headers.push((b"authorization".to_vec(), b"two".to_vec()));
    assert_eq!(mw.cache_file_path(&a), mw.cache_file_path(&b));
}

#[test]
fn path_joins_like_a_directory() {
    let req = request("GET", "http://localhost:3000", None);
    let name = format!("{}.json", fingerprint("GET", "http://localhost:3000", None));
    assert_eq!(VcrCacheMiddleware::new("dir").cache_file_path(&req), format!("dir/{}", name));
    assert_eq!(VcrCacheMiddleware::new("dir/").cache_file_path(&req), format!("dir/{}", name));
    assert_eq!(VcrCacheMiddleware::new("").cache_file_path(&req), name);
}

#[test]
fn fingerprint_path_on_given_names() {
    assert_eq!(VcrCacheMiddleware::new("cache").fingerprint_path("abc"), "cache/abc.json");
    assert_eq!(VcrCacheMiddleware::new("a/b/").fingerprint_path("0f"), "a/b/0f.json");
    assert_eq!(VcrCacheMiddleware::new("").fingerprint_path("0f"), "0f.json");
}

#[test]
fn record_text_is_exact() {
    let rec = record(200, &[(b"n", b"v")], b"ok");
    assert_eq!(
        encode_record(&rec),
        b"{\"status\":200,\"headers\":[[\"6e\",\"76\"]],\"body\":\"6f6b\"}".to_vec()
    );
    let empty = record(0, &[], b"");
    assert_eq!(encode_record(&empty), b"{\"status\":0,\"headers\":[],\"body\":\"\"}".to_vec());
}

#[test]
fn record_round_trips() {
    let rec = record(
        503,
        &[
            (b"content-type", b"text/plain"),
            (b"set-cookie", b"a=1"),
            (b"set-cookie", b"b=2"),
            (b"x-raw", &[0xff, 0x00, 0x80]),
        ],
        &[0, 1, 2, 0xfe, 0xff],
    );
    let back = decode_record(&encode_record(&rec)).expect("a record");
    assert!(same_record(&rec, &back));
    for status in [0u16, 9, 10, 404, 65535] {
        let r = record(status, &[], b"body");
        assert!(same_record(&r, &decode_record(&encode_record(&r)).unwrap()));
    }
}

#[test]
fn decode_reads_stored_text() {
    let text = b"{\"status\":201,\"headers\":[[\"61\",\"62\"],[\"63\",\"\"]],\"body\":\"00ff\"}";
    let rec = decode_record(text).expect("a record");
    assert_eq!(rec.status, 201);
    assert_eq!(rec.headers, vec![(b"a".to_vec(), b"b".to_vec()), (b"c".to_vec(), Vec::new())]);
    assert_eq!(rec.body, vec![0x00, 0xff]);
}

#[test]
fn decode_rejects_other_content() {
    let cases: [&[u8]; 9] = [
        b"",
        b"garbage \x00\x01\x02",
        b"{\"status\":200,\"headers\":[],\"body\":\"6f6\"}",
        b"{\"status\":200,\"headers\":[],\"body\":\"6F6B\"}",
        b"{\"status\":0200,\"headers\":[],\"body\":\"\"}",
        b"{\"status\":65536,\"headers\":[],\"body\":\"\"}",
        b"{\"status\":200,\"headers\":[],\"body\":\"\"} ",
        b"{\"status\":200,\"headers\":[[\"61\"]],\"body\":\"\"}",
        b"{\"status\":200,\"headers\":[],\"body\":\"\"",
    ];
    for c in cases {
        assert!(decode_record(c).is_none());
    }
}

#[test]
fn lookup_misses_on_absent_or_corrupt_file() {
    assert!(matches!(lookup(None), Lookup::Miss));
    assert!(matches!(lookup(Some(b"\xde\xad\xbe\xef")), Lookup::Miss));
    let rec = record(200, &[], b"hi");
    match lookup(Some(&encode_record(&rec))) {
        Lookup::Hit(r) => assert!(same_record(&r, &rec)),
        Lookup::Miss => panic!("expected a hit"),
    }
}

#[test]
fn miss_then_hit() {
    let mw = MemoClientBuilder::new().middleware();
    let req = request("POST", "http://localhost:3000", Some(b"{\"query\":\"crab\"}"));
    let transport = |_: &RequestInfo| record(200, &[(b"content-type", b"text/plain")], b"Clumsy crab counts clouds.");
    let mut h = Harness::new();
    let first = h.send(&mw, &req, &transport);
    assert_eq!(h.calls, 1);
    assert_eq!(first.status, 200);
    assert!(String::from_utf8_lossy(&first.body).contains("Clumsy crab counts clouds."));
    let path = mw.cache_file_path(&req);
    assert!(path.starts_with("cache_dir/"));
    assert!(h.files.contains_key(&path));
    let second = h.send(&mw, &req, &transport);
    assert_eq!(h.calls, 1);
    assert!(same_record(&first, &second));
}

#[test]
fn corrupt_file_is_a_miss() {
    let mw = VcrCacheMiddleware::new("cache");
    let req = request("GET", "http://localhost:3000", None);
    let mut h = Harness::new();
    h.files.insert(mw.cache_file_path(&req), b"{\"status\":2".to_vec());
    let transport = |_: &RequestInfo| record(200, &[], b"fresh");
    let got = h.send(&mw, &req, &transport);
    assert_eq!(h.calls, 1);
    assert_eq!(got.body, b"fresh".to_vec());
    let again = h.send(&mw, &req, &transport);
    assert_eq!(h.calls, 1);
    assert!(same_record(&got, &again));
}

#[test]
fn custom_directory_is_used() {
    let mw = MemoClientBuilder::new().cache_dir("cache_v2").middleware();
    let req = request("GET", "http://localhost:3000", None);
    let transport = |_: &RequestInfo| record(200, &[], b"Crab wears jellyfish hat.");
    let mut h = Harness::new();
    let got = h.send(&mw, &req, &transport);
    assert_eq!(got.status, 200);
    assert_eq!(h.files.len(), 1);
    for path in h.files.keys() {
        assert!(path.starts_with("cache_v2/"));
        assert!(!path["cache_v2/".len()..].contains('/'));
    }
}

#[test]
fn error_statuses_are_cached() {
    let mw = VcrCacheMiddleware::new("cache");
    let mut h = Harness::new();
    for (url, status) in [("http://localhost:3000/missing", 404u16), ("http://localhost:3000/broken", 500)] {
        let req = request("GET", url, None);
        let transport = move |_: &RequestInfo| record(status, &[], b"error");
        let first = h.send(&mw, &req, &transport);
        let calls = h.calls;
        let second = h.send(&mw, &req, &transport);
        assert_eq!(h.calls, calls);
        assert_eq!(second.status, status);
        assert!(same_record(&first, &second));
    }
    assert_eq!(h.calls, 2);
}
