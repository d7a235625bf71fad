//! Static-asset helpers for the serving layer: path normalization, a lookup
//! over a plain list of embedded files, and content-type selection by file
//! extension. The serving layer itself stays outside the library.

use vstd::prelude::*;
use vstd::string::*;

use crate::strs::str_eq;

verus! {

pub open spec fn ends_with_spec(s: Seq<char>, suf: Seq<char>) -> bool {
    s.len() >= suf.len() && s.skip(s.len() - suf.len() as int) == suf
}

pub fn str_ends_with(s: &str, suf: &str) -> (r: bool)
    ensures
        r == ends_with_spec(s@, suf@),
{
    let n = s.unicode_len();
    let m = suf.unicode_len();
    if m > n {
        return false;
    }
    let base = n - m;
    let mut i: usize = 0;
    while i < m
        invariant
            m <= n,
            n == s@.len(),
            m == suf@.len(),
            base == n - m,
            i <= m,
            forall|u: int| 0 <= u < i ==> s@[base + u] == suf@[u],
        decreases m - i,
    {
        if s.get_char(base + i) != suf.get_char(i) {
            proof {
                if ends_with_spec(s@, suf@) {
                    assert(s@.skip(base as int)[i as int] == suf@[i as int]);
                }
            }
            return false;
        }
        i = i + 1;
    }
    proof {
        assert(s@.skip(base as int) =~= suf@);
    }
    true
}

/// The content type for a path, chosen by its extension; anything unknown is
/// served as HTML.
pub open spec fn mime_of(p: Seq<char>) -> Seq<char> {
    if ends_with_spec(p, ".js"@) {
        "application/javascript"@
    } else if ends_with_spec(p, ".css"@) {
        "text/css"@
    } else if ends_with_spec(p, ".json"@) {
        "application/json"@
    } else {
        "text/html"@
    }
}

pub fn mime_for(p: &str) -> (r: &'static str)
    ensures
        r@ == mime_of(p@),
{
    if str_ends_with(p, ".js") {
        "application/javascript"
    } else if str_ends_with(p, ".css") {
        "text/css"
    } else if str_ends_with(p, ".json") {
        "application/json"
    } else {
        "text/html"
    }
}

/// How many leading slashes a path carries.
pub open spec fn leading_slashes(s: Seq<char>) -> int
    decreases s.len(),
{
    if s.len() > 0 && s[0] == '/' {
        1 + leading_slashes(s.skip(1))
    } else {
        0
    }
}

proof fn lemma_leading_slashes(s: Seq<char>, i: int)
    requires
        0 <= i <= s.len(),
        forall|u: int| 0 <= u < i ==> s[u] == '/',
        i == s.len() || s[i] != '/',
    ensures
        leading_slashes(s) == i,
    decreases i,
{
    if i == 0 {
    } else {
        lemma_leading_slashes(s.skip(1), i - 1);
    }
}

/// The key an incoming request path is looked up under: the empty path and
/// the bare slash serve the index page; otherwise leading slashes are
/// stripped.
pub open spec fn normalized(p: Seq<char>) -> Seq<char> {
    if p.len() == 0 || p == "/"@ {
        "index.html"@
    } else {
        p.skip(leading_slashes(p))
    }
}

pub fn copy_bytes(v: &Vec<u8>) -> (r: Vec<u8>)
    ensures
        r@ == v@,
{
    let mut out: Vec<u8> = Vec::new();
    let mut i: usize = 0;
    while i < v.len()
        invariant
            i <= v@.len(),
            out@ == v@.take(i as int),
        decreases v@.len() - i,
    {
        out.push(v[i]);
        proof {
            assert(out@ =~= v@.take(i as int + 1));
        }
        i = i + 1;
    }
    proof {
        assert(v@.take(v@.len() as int) =~= v@);
    }
    out
}

/// Looks a request path up in a list of embedded files (name, bytes) and
/// returns the file's bytes with its content type. The path is normalized
/// first; `None` exactly when no file carries the normalized name.
pub fn asset(files: &Vec<(String, Vec<u8>)>, path: &str) -> (r: Option<(Vec<u8>, String)>)
    ensures
        r matches Some(pair) ==> exists|q: int|
            0 <= q < files@.len() && (#[trigger] files@[q].0)@ == normalized(path@) && pair.0@
                == files@[q].1@ && pair.1@ == mime_of(normalized(path@)),
        r is None ==> forall|q: int|
            0 <= q < files@.len() ==> (#[trigger] files@[q].0)@ != normalized(path@),
{
    let n = path.unicode_len();
    let key: String = if n == 0 || str_eq(path, "/") {
        String::from_str("index.html")
    } else {
        let mut i: usize = 0;
        while i < n && path.get_char(i) == '/'
            invariant
                n == path@.len(),
                i <= n,
                forall|u: int| 0 <= u < i ==> path@[u] == '/',
            decreases n - i,
        {
            i = i + 1;
        }
        proof {
            lemma_leading_slashes(path@, i as int);
        }
        let tail = path.substring_char(i, n);
        String::from_str(tail)
    };
    proof {
        assert(key@ == normalized(path@));
    }
    let mut q: usize = 0;
    while q < files.len()
        invariant
            key@ == normalized(path@),
            q <= files@.len(),
            forall|u: int| 0 <= u < q ==> (#[trigger] files@[u].0)@ != normalized(path@),
        decreases files@.len() - q,
    {
        if str_eq(files[q].0.as_str(), key.as_str()) {
            let bytes = copy_bytes(&files[q].1);
            let mime = String::from_str(mime_for(key.as_str()));
            return Some((bytes, mime));
        }
        q = q + 1;
    }
    None
}

} // verus!
