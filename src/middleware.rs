//! The replay interceptor: where a request's record lives, and what to do on
//! a hit or a miss. Reading and writing files and calling the network are left
//! to the caller, which hands the results back as plain values.
use vstd::prelude::*;
use crate::digest::{fingerprint, fingerprint_of, hex_text};
use crate::record::{CacheRecord, decode_record, encode_record, record_text, stored_record};

verus! {

/// What the interceptor reads of an outgoing request.
pub struct RequestInfo {
    pub method: String,
    pub url: String,
    pub headers: Vec<(Vec<u8>, Vec<u8>)>,
    pub body: Option<Vec<u8>>,
}

pub open spec fn body_view(body: Option<Vec<u8>>) -> Option<Seq<u8>> {
    match body {
        Some(b) => Some(b@),
        None => None,
    }
}

/// A file name under a directory, as `Path::join` forms it for a relative name.
pub open spec fn join_path(dir: Seq<char>, name: Seq<char>) -> Seq<char> {
    if dir.len() == 0 || dir.last() == '/' {
        dir + name
    } else {
        dir + seq!['/'] + name
    }
}

/// The file that holds the record of a fingerprint.
pub open spec fn file_name(fp: Seq<char>) -> Seq<char> {
    fp + seq!['.', 'j', 's', 'o', 'n']
}

/// The file that holds the record of a request, in a cache directory.
pub open spec fn request_path(dir: Seq<char>, req: RequestInfo) -> Seq<char> {
    join_path(dir, file_name(fingerprint_of(req.method@, req.url@, body_view(req.body))))
}

/// The result of a lookup in the store.
pub enum Lookup {
    /// A record was stored: answer with it, without calling the transport.
    Hit(CacheRecord),
    /// No readable record: send the request on.
    Miss,
}

/// Decides on a cache file: `content` is what could be read of it, `None`
/// where it could not be read. A file that does not hold a record is a miss.
pub fn lookup(content: Option<&[u8]>) -> (r: Lookup)
    ensures
        match content {
            None => r is Miss,
            Some(b) => match r {
                Lookup::Hit(rec) => stored_record(b@) == Some(rec@),
                Lookup::Miss => stored_record(b@) is None,
            },
        },
{
    match content {
        None => Lookup::Miss,
        Some(b) => match decode_record(b) {
            Some(rec) => Lookup::Hit(rec),
            None => Lookup::Miss,
        },
    }
}

/// What a miss leaves to be written: the file and its content.
pub struct Persist {
    pub path: String,
    pub content: Vec<u8>,
}

/// Intercepts requests, answering each from a directory of recorded responses.
pub struct VcrCacheMiddleware {
    cache_dir: String,
}

impl VcrCacheMiddleware {
    pub closed spec fn dir(&self) -> Seq<char> {
        self.cache_dir@
    }

    pub fn new(cache_dir: &str) -> (r: Self)
        ensures
            r.dir() == cache_dir@,
    {
        VcrCacheMiddleware { cache_dir: String::from_str(cache_dir) }
    }

    /// The file that holds the record of a fingerprint: `<fp>.json` in the
    /// cache directory.
    pub fn fingerprint_path(&self, fp: &str) -> (r: String)
        ensures
            r@ == join_path(self.dir(), file_name(fp@)),
    {
        let dir = self.cache_dir.as_str();
        let mut path = String::from_str(dir);
        let n = dir.unicode_len();
        if n > 0 && dir.get_char(n - 1) != '/' {
            proof {
                reveal_strlit("/");
            }
            path.append("/");
        }
        path.append(fp);
        proof {
            reveal_strlit(".json");
        }
        path.append(".json");
        assert(path@ =~= join_path(self.dir(), file_name(fp@)));
        path
    }

    /// The file that holds the record of `req`, named by its fingerprint.
    /// Headers take no part in it.
    pub fn cache_file_path(&self, req: &RequestInfo) -> (r: String)
        ensures
            r@ == request_path(self.dir(), *req),
    {
        let body: Option<&[u8]> = match &req.body {
            Some(b) => Some(b.as_slice()),
            None => None,
        };
        let fp = fingerprint(req.method.as_str(), req.url.as_str(), body);
        self.fingerprint_path(fp.as_str())
    }

    /// What a miss stores: the record of the response, in the file of the request.
    pub fn persist(&self, req: &RequestInfo, response: &CacheRecord) -> (r: Persist)
        ensures
            r.path@ == request_path(self.dir(), *req),
            r.content@ == record_text(response@),
    {
        Persist { path: self.cache_file_path(req), content: encode_record(response) }
    }
}

/// Builds the interceptor, with one option: the cache directory.
pub struct MemoClientBuilder {
    cache_dir: String,
}

impl MemoClientBuilder {
    pub closed spec fn dir(&self) -> Seq<char> {
        self.cache_dir@
    }

    /// Starts with the directory `cache_dir`.
    pub fn new() -> (r: Self)
        ensures
            r.dir() == seq!['c', 'a', 'c', 'h', 'e', '_', 'd', 'i', 'r'],
    {
        proof {
            reveal_strlit("cache_dir");
        }
        MemoClientBuilder { cache_dir: String::from_str("cache_dir") }
    }

    pub fn cache_dir(self, dir: &str) -> (r: Self)
        ensures
            r.dir() == dir@,
    {
        MemoClientBuilder { cache_dir: String::from_str(dir) }
    }

    /// The interceptor that the built client carries.
    pub fn middleware(self) -> (r: VcrCacheMiddleware)
        ensures
            r.dir() == self.dir(),
    {
        VcrCacheMiddleware::new(self.cache_dir.as_str())
    }
}

/// Two requests that differ only in their headers share one cache file.
pub proof fn lemma_headers_ignored(dir: Seq<char>, a: RequestInfo, b: RequestInfo)
    requires
        a.method@ == b.method@,
        a.url@ == b.url@,
        body_view(a.body) == body_view(b.body),
    ensures
        request_path(dir, a) == request_path(dir, b),
{
}

/// The cache file of a request lies directly in the cache directory: its path
/// is the directory, a separator unless the directory is empty or ends in one,
/// and a file name without separators.
pub proof fn lemma_path_in_dir(dir: Seq<char>, req: RequestInfo)
    ensures
        ({
            let p = request_path(dir, req);
            let k = if dir.len() == 0 || dir.last() == '/' { dir.len() as int } else { (dir.len() + 1) as int };
            &&& p.subrange(0, dir.len() as int) == dir
            &&& k > dir.len() ==> p[dir.len() as int] == '/'
            &&& k < p.len()
            &&& forall|i: int| k <= i < p.len() ==> p[i] != '/'
        }),
{
    let p = request_path(dir, req);
    let fp = fingerprint_of(req.method@, req.url@, body_view(req.body));
    let name = file_name(fp);
    assert(p.subrange(0, dir.len() as int) =~= dir);
    let k = if dir.len() == 0 || dir.last() == '/' { dir.len() as int } else { (dir.len() + 1) as int };
    assert forall|i: int| k <= i < p.len() implies p[i] != '/' by {
        assert(p[i] == name[i - k]);
        if i - k < fp.len() {
            assert(fp[i - k] == hex_text(crate::digest::sha256_of(crate::digest::fingerprint_input(
                req.method@, req.url@, body_view(req.body))))[i - k]);
        }
    }
}

} // verus!
