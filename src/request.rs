//! The request line: method, target, and the path that the target names.

use vstd::prelude::*;
use vstd::string::*;
use vstd::utf8::{decode_utf8, valid_utf8};
use crate::text::{copy_range, find_byte, index_of, lemma_index_of_bounds, lemma_index_of_first};

verus! {

/// The value of an ASCII hexadecimal digit.
pub open spec fn hex_value(b: u8) -> Option<u8> {
    if 0x30 <= b <= 0x39 {
        Some((b - 0x30) as u8)
    } else if 0x61 <= b <= 0x66 {
        Some((b - 0x61 + 10) as u8)
    } else if 0x41 <= b <= 0x46 {
        Some((b - 0x41 + 10) as u8)
    } else {
        None
    }
}

/// Percent-decoding: each `%` followed by two hexadecimal digits stands for
/// the byte they spell; every other byte stands for itself.
pub open spec fn percent_decoded(s: Seq<u8>) -> Seq<u8>
    decreases s.len(),
{
    if s.len() == 0 {
        Seq::empty()
    } else if s[0] == 0x25 && s.len() >= 3 && hex_value(s[1]) is Some && hex_value(s[2]) is Some {
        seq![(hex_value(s[1])->0 * 16 + hex_value(s[2])->0) as u8] + percent_decoded(
            s.subrange(3, s.len() as int),
        )
    } else {
        seq![s[0]] + percent_decoded(s.drop_first())
    }
}

/// Relies on percent_encoding::percent_decode, which decodes `%XX` escapes and
/// keeps every other byte, and on PercentDecode::decode_utf8, which reads the
/// decoded bytes as UTF-8 and fails exactly when they are not valid UTF-8.
#[verifier::external_body]
fn decode_percent_utf8(b: &[u8]) -> (r: Option<String>)
    ensures
        r is Some <==> valid_utf8(percent_decoded(b@)),
        r matches Some(s) ==> s@ == decode_utf8(percent_decoded(b@)),
{
    match percent_encoding::percent_decode(b).decode_utf8() {
        Ok(s) => Some(s.into_owned()),
        Err(_) => None,
    }
}

/// Where the first line ends: the position of the first CR LF, or the length
/// of the input when it holds none.
pub open spec fn line_end(b: Seq<u8>) -> int
    decreases b.len(),
{
    if b.len() < 2 {
        b.len() as int
    } else if b[0] == 13 && b[1] == 10 {
        0
    } else {
        1 + line_end(b.drop_first())
    }
}

/// The request line: the bytes before the first CR LF.
pub open spec fn request_line(b: Seq<u8>) -> Seq<u8> {
    b.subrange(0, line_end(b))
}

/// The first space-separated token of a line.
pub open spec fn method_token(line: Seq<u8>) -> Seq<u8> {
    line.subrange(0, index_of(line, 0x20u8))
}

/// What follows the first space of a line.
pub open spec fn after_method(line: Seq<u8>) -> Seq<u8> {
    line.subrange(index_of(line, 0x20u8) + 1, line.len() as int)
}

/// The second space-separated token of a line.
pub open spec fn target_token(line: Seq<u8>) -> Seq<u8> {
    after_method(line).subrange(0, index_of(after_method(line), 0x20u8))
}

/// Split on single spaces, the line gives at least three tokens.
pub open spec fn has_three_tokens(line: Seq<u8>) -> bool {
    index_of(line, 0x20u8) < line.len() && index_of(after_method(line), 0x20u8) < after_method(
        line,
    ).len()
}

/// The target without its query string (everything from the first `?` on).
pub open spec fn strip_query(t: Seq<u8>) -> Seq<u8> {
    t.subrange(0, index_of(t, 0x3fu8))
}

/// `/..` starts at position `i` of `p`.
pub open spec fn traversal_at(p: Seq<u8>, i: int) -> bool {
    0 <= i && i + 3 <= p.len() && p[i] == 0x2f && p[i + 1] == 0x2e && p[i + 2] == 0x2e
}

/// `p` holds the literal `/..`.
pub open spec fn has_traversal(p: Seq<u8>) -> bool {
    exists|i: int| #[trigger] traversal_at(p, i)
}

/// The decoded path's last segment is empty.
pub open spec fn names_directory(d: Seq<char>) -> bool {
    d.len() == 0 || d.last() == '/'
}

/// The file looked up for a directory.
pub open spec fn index_name() -> Seq<char> {
    "index.html"@
}

/// What a request target resolves to: the path to look up and whether the
/// index file of a directory was asked for; `None` when it is refused.
pub open spec fn resolve_target(t: Seq<u8>) -> Option<(Seq<char>, bool)> {
    let raw = strip_query(t);
    if has_traversal(raw) || !valid_utf8(percent_decoded(raw)) {
        None
    } else {
        let d = decode_utf8(percent_decoded(raw));
        if names_directory(d) {
            Some((d + index_name(), true))
        } else {
            Some((d, false))
        }
    }
}

/// The method that a token names, of the two that are served.
pub open spec fn method_name(m: Seq<u8>) -> Option<Seq<char>> {
    if m == seq![0x47u8, 0x45u8, 0x54u8] {
        Some("GET"@)
    } else if m == seq![0x48u8, 0x45u8, 0x41u8, 0x44u8] {
        Some("HEAD"@)
    } else {
        None
    }
}

/// What a request parses to: method, path and auto-index flag, or `None`.
pub open spec fn parsed(b: Seq<u8>) -> Option<(Seq<char>, Seq<char>, bool)> {
    let line = request_line(b);
    if line.len() == 0 || !has_three_tokens(line) {
        None
    } else {
        match (method_name(method_token(line)), resolve_target(target_token(line))) {
            (Some(m), Some((p, a))) => Some((m, p, a)),
            _ => None,
        }
    }
}

/// A request whose path, without its query string, holds `/..` is refused,
/// whatever the escapes in it decode to.
pub proof fn lemma_traversal_refused(b: Seq<u8>)
    requires
        has_traversal(strip_query(target_token(request_line(b)))),
    ensures
        parsed(b) is None,
{
}

/// A path whose decoded form ends in `/` (or is empty) asks for the index
/// file: the flag is set and `index.html` is appended to the decoded form.
pub proof fn lemma_directory_index(t: Seq<u8>)
    requires
        resolve_target(t) is Some,
        names_directory(decode_utf8(percent_decoded(strip_query(t)))),
    ensures
        resolve_target(t) == Some(
            (decode_utf8(percent_decoded(strip_query(t))) + "index.html"@, true),
        ),
{
}

/// Any other accepted path resolves to its percent-decoded form, with the
/// query string left out.
pub proof fn lemma_decoded_path(t: Seq<u8>)
    requires
        resolve_target(t) is Some,
        !names_directory(decode_utf8(percent_decoded(strip_query(t)))),
    ensures
        resolve_target(t) == Some((decode_utf8(percent_decoded(strip_query(t))), false)),
{
}

/// A query string has no bearing on what a path resolves to.
pub proof fn lemma_query_ignored(p: Seq<u8>, q: Seq<u8>)
    requires
        forall|i: int| 0 <= i < p.len() ==> p[i] != 0x3fu8,
    ensures
        resolve_target(p + seq![0x3fu8] + q) == resolve_target(p),
{
    let t = p + seq![0x3fu8] + q;
    assert forall|j: int| 0 <= j < p.len() implies t[j] != 0x3fu8 by {
        assert(t[j] == p[j]);
    }
    lemma_index_of_first(t, 0x3fu8, p.len() as int);
    assert(strip_query(t) =~= p);
    lemma_index_of_bounds(p, 0x3fu8);
    if index_of(p, 0x3fu8) < p.len() {
        assert(p[index_of(p, 0x3fu8)] == 0x3fu8);
    }
    assert(strip_query(p) =~= p);
}

#[allow(non_snake_case)]
#[derive(Debug)]
pub struct HTTPRequest {
    pub method: String,
    pub path: String,
    pub isAutoIndex: bool,
}

fn line_length(b: &[u8]) -> (r: usize)
    ensures
        r == line_end(b@),
        r <= b@.len(),
{
    let n = b.len();
    let mut i: usize = 0;
    assert(b@.subrange(0, n as int) =~= b@);
    while n - i > 1 && !(b[i] == 13 && b[i + 1] == 10)
        invariant
            i <= n == b@.len(),
            line_end(b@) == i + line_end(b@.subrange(i as int, n as int)),
        decreases n - i,
    {
        assert(b@.subrange(i as int, n as int).drop_first() =~= b@.subrange(i + 1, n as int));
        i = i + 1;
    }
    let ghost rest = b@.subrange(i as int, n as int);
    if n - i > 1 {
        assert(rest[0] == 13 && rest[1] == 10);
        i
    } else {
        assert(rest.len() < 2);
        n
    }
}

/// True when `b[..hi]` holds `/..`.
fn holds_traversal(b: &[u8], hi: usize) -> (r: bool)
    requires
        hi <= b@.len(),
    ensures
        r == has_traversal(b@.subrange(0, hi as int)),
{
    let ghost p = b@.subrange(0, hi as int);
    let mut i: usize = 0;
    while hi >= 3 && i <= hi - 3
        invariant
            hi <= b@.len(),
            p == b@.subrange(0, hi as int),
            forall|j: int| 0 <= j < i ==> !#[trigger] traversal_at(p, j),
        decreases hi - i,
    {
        if b[i] == 0x2f && b[i + 1] == 0x2e && b[i + 2] == 0x2e {
            assert(traversal_at(p, i as int));
            return true;
        }
        i = i + 1;
    }
    assert forall|j: int| !#[trigger] traversal_at(p, j) by {
        if 0 <= j < i {
        }
    }
    false
}

/// Resolves a request target to the path to look up and whether it asked for
/// a directory's index file. Fails when the target, without its query
/// string, holds `/..` before decoding, or decodes to bytes that are not
/// UTF-8.
#[allow(non_snake_case)]
pub fn parsePath(path: &[u8]) -> (r: Result<(String, bool), ()>)
    ensures
        match r {
            Ok((p, auto)) => resolve_target(path@) == Some((p@, auto)),
            Err(_) => resolve_target(path@) is None,
        },
{
    let q = find_byte(path, 0x3f, 0, path.len());
    assert(path@.subrange(0, path@.len() as int) =~= path@);
    if holds_traversal(path, q) {
        return Err(());
    }
    let raw = copy_range(path, 0, q);
    let decoded = decode_percent_utf8(raw.as_slice());
    match decoded {
        None => Err(()),
        Some(mut d) => {
            let n = d.as_str().unicode_len();
            let auto = n == 0 || d.as_str().get_char(n - 1) == '/';
            if auto {
                d.append("index.html");
            }
            Ok((d, auto))
        },
    }
}

impl HTTPRequest {
    pub fn new() -> (r: HTTPRequest)
        ensures
            r.method@ == Seq::<char>::empty(),
            r.path@ == Seq::<char>::empty(),
            !r.isAutoIndex,
    {
        HTTPRequest { method: String::new(), path: String::new(), isAutoIndex: false }
    }

    /// Parses the request line of `buffer`: `METHOD SP target SP version`,
    /// ending at the first CR LF. The method must be `GET` or `HEAD`.
    pub fn parse(buffer: &[u8]) -> (r: Result<HTTPRequest, ()>)
        ensures
            match r {
                Ok(req) => parsed(buffer@) == Some((req.method@, req.path@, req.isAutoIndex)),
                Err(_) => parsed(buffer@) is None,
            },
    {
        let e = line_length(buffer);
        let ghost line = request_line(buffer@);
        if e == 0 {
            return Err(());
        }
        let sp1 = find_byte(buffer, 0x20, 0, e);
        proof {
            assert(buffer@.subrange(0, e as int) == line);
            lemma_index_of_bounds(line, 0x20u8);
        }
        if sp1 == e {
            return Err(());
        }
        let sp2 = find_byte(buffer, 0x20, sp1 + 1, e);
        proof {
            assert(buffer@.subrange(sp1 + 1, e as int) =~= after_method(line));
        }
        if sp2 == e {
            return Err(());
        }
        let target = copy_range(buffer, sp1 + 1, sp2);
        assert(target@ =~= target_token(line));
        let resolved = parsePath(target.as_slice());
        let ghost m = buffer@.subrange(0, sp1 as int);
        assert(m =~= method_token(line));
        let method = if sp1 == 3 && buffer[0] == 0x47 && buffer[1] == 0x45 && buffer[2] == 0x54 {
            assert(m =~= seq![0x47u8, 0x45u8, 0x54u8]);
            String::from_str("GET")
        } else if sp1 == 4 && buffer[0] == 0x48 && buffer[1] == 0x45 && buffer[2] == 0x41
            && buffer[3] == 0x44 {
            assert(m =~= seq![0x48u8, 0x45u8, 0x41u8, 0x44u8]);
            String::from_str("HEAD")
        } else {
            proof {
                if m == seq![0x47u8, 0x45u8, 0x54u8] {
                    assert(m[0] == 0x47 && m[1] == 0x45 && m[2] == 0x54);
                }
                if m == seq![0x48u8, 0x45u8, 0x41u8, 0x44u8] {
                    assert(m[0] == 0x48 && m[1] == 0x45 && m[2] == 0x41 && m[3] == 0x44);
                }
            }
            return Err(());
        };
        match resolved {
            Ok((path, auto)) => Ok(HTTPRequest { method, path, isAutoIndex: auto }),
            Err(_) => Err(()),
        }
    }
}

} // verus!
