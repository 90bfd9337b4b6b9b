//! Responses: status, headers with unique names, and the text of the head.

use vstd::prelude::*;
use vstd::string::*;

verus! {

#[derive(Clone, Copy, Debug, PartialEq, Eq, Structural)]
pub enum Status {
    Success,
    BadRequest,
    Forbidden,
    NotFound,
    NotAllowed,
}

/// The status line after the protocol version.
pub open spec fn status_text(s: Status) -> Seq<char> {
    match s {
        Status::Success => "200 OK"@,
        Status::BadRequest => "400 Bad Request"@,
        Status::Forbidden => "403 Forbidden"@,
        Status::NotFound => "404 Not Found"@,
        Status::NotAllowed => "405 Not Allowed"@,
    }
}

impl Status {
    pub fn text(&self) -> (r: String)
        ensures
            r@ == status_text(*self),
    {
        match self {
            Status::Success => String::from_str("200 OK"),
            Status::BadRequest => String::from_str("400 Bad Request"),
            Status::Forbidden => String::from_str("403 Forbidden"),
            Status::NotFound => String::from_str("404 Not Found"),
            Status::NotAllowed => String::from_str("405 Not Allowed"),
        }
    }
}

/// The mapping from header name to value that a list of headers gives.
pub open spec fn header_map(hs: Seq<(String, String)>) -> Map<Seq<char>, Seq<char>>
    decreases hs.len(),
{
    if hs.len() == 0 {
        Map::empty()
    } else {
        header_map(hs.drop_last()).insert(hs.last().0@, hs.last().1@)
    }
}

/// No two headers have the same name.
pub open spec fn unique_names(hs: Seq<(String, String)>) -> bool {
    forall|i: int, j: int| 0 <= i < j < hs.len() ==> hs[i].0@ != hs[j].0@
}

/// The header lines, each `Name: Value` and CR LF, in list order.
pub open spec fn headers_text(hs: Seq<(String, String)>) -> Seq<char>
    decreases hs.len(),
{
    if hs.len() == 0 {
        Seq::empty()
    } else {
        headers_text(hs.drop_last()) + hs.last().0@ + ": "@ + hs.last().1@ + "\r\n"@
    }
}

/// The head of a response: status line, header lines, blank line.
pub open spec fn head_text(s: Status, hs: Seq<(String, String)>) -> Seq<char> {
    "HTTP/1.1 "@ + status_text(s) + "\r\n"@ + headers_text(hs) + "\r\n"@
}

/// Position of the last `x` in `s`, or -1.
pub open spec fn last_index_of(s: Seq<char>, x: char) -> int
    decreases s.len(),
{
    if s.len() == 0 {
        -1
    } else if s.last() == x {
        s.len() - 1
    } else {
        last_index_of(s.drop_last(), x)
    }
}

proof fn lemma_last_index_of_bounds(s: Seq<char>, x: char)
    ensures
        -1 <= last_index_of(s, x) < s.len(),
    decreases s.len(),
{
    if s.len() > 0 && s.last() != x {
        lemma_last_index_of_bounds(s.drop_last(), x);
    }
}

/// The last segment of a path.
pub open spec fn file_name(p: Seq<char>) -> Seq<char> {
    p.subrange(last_index_of(p, '/') + 1, p.len() as int)
}

/// What follows the last dot of the file name, unless that dot opens the
/// name; empty when there is no such dot.
pub open spec fn extension(p: Seq<char>) -> Seq<char> {
    let n = file_name(p);
    let d = last_index_of(n, '.');
    if d > 0 {
        n.subrange(d + 1, n.len() as int)
    } else {
        Seq::empty()
    }
}

/// The media type served for a file extension.
pub open spec fn content_type(ext: Seq<char>) -> Seq<char> {
    if ext == "html"@ {
        "text/html"@
    } else if ext == "css"@ {
        "text/css"@
    } else if ext == "js"@ {
        "application/javascript"@
    } else if ext == "jpeg"@ || ext == "jpg"@ {
        "image/jpeg"@
    } else if ext == "png"@ {
        "image/png"@
    } else if ext == "swf"@ {
        "application/x-shockwave-flash"@
    } else if ext == "gif"@ {
        "image/gif"@
    } else {
        "application/chiki_briki"@
    }
}

/// The decimal digits of `n`.
pub open spec fn decimal(n: nat) -> Seq<char>
    decreases n,
{
    if n < 10 {
        seq![(n + 48) as char]
    } else {
        decimal(n / 10).push((n % 10 + 48) as char)
    }
}

/// Relies on the `Display` impl of `u64` (through `to_string`), which writes
/// the number in decimal with no sign, padding or separators.
#[verifier::external_body]
fn decimal_text(n: u64) -> (r: String)
    ensures
        r@ == decimal(n as nat),
{
    n.to_string()
}

pub open spec fn is_digit_char(c: char) -> bool {
    '0' <= c <= '9'
}

/// An English weekday abbreviation.
pub open spec fn is_short_weekday(w: Seq<char>) -> bool {
    w == "Sun"@ || w == "Mon"@ || w == "Tue"@ || w == "Wed"@ || w == "Thu"@ || w == "Fri"@ || w
        == "Sat"@
}

/// An English month abbreviation.
pub open spec fn is_short_month(m: Seq<char>) -> bool {
    m == "Jan"@ || m == "Feb"@ || m == "Mar"@ || m == "Apr"@ || m == "May"@ || m == "Jun"@ || m
        == "Jul"@ || m == "Aug"@ || m == "Sep"@ || m == "Oct"@ || m == "Nov"@ || m == "Dec"@
}

/// A year from 1000 on: four digits, or `+` and five or more digits.
pub open spec fn is_year_text(y: Seq<char>) -> bool {
    (y.len() == 4 && forall|i: int| 0 <= i < 4 ==> is_digit_char(#[trigger] y[i])) || (y.len()
        >= 6 && y[0] == '+' && forall|i: int| 1 <= i < y.len() ==> is_digit_char(#[trigger] y[i]))
}

/// ` HH:MM:SS GMT`.
pub open spec fn is_clock_text(t: Seq<char>) -> bool {
    &&& t.len() == 13
    &&& t[0] == ' ' && t[3] == ':' && t[6] == ':'
    &&& is_digit_char(t[1]) && is_digit_char(t[2])
    &&& is_digit_char(t[4]) && is_digit_char(t[5])
    &&& is_digit_char(t[7]) && is_digit_char(t[8])
    &&& t.subrange(9, 13) == " GMT"@
}

/// A date in the RFC 1123 form, in UTC: `Sun, 06 Nov 1994 08:49:37 GMT`.
pub open spec fn http_date(s: Seq<char>) -> bool {
    &&& s.len() >= 29
    &&& is_short_weekday(s.subrange(0, 3))
    &&& s[3] == ',' && s[4] == ' '
    &&& is_digit_char(s[5]) && is_digit_char(s[6])
    &&& s[7] == ' '
    &&& is_short_month(s.subrange(8, 11))
    &&& s[11] == ' '
    &&& is_year_text(s.subrange(12, s.len() - 13))
    &&& is_clock_text(s.subrange(s.len() - 13, s.len() as int))
}

/// Relies on chrono::Utc::now and chrono's `format` with
/// `%a, %d %b %Y %H:%M:%S GMT`: English abbreviations, two-digit zero-padded
/// day, hour, minute and second, and a year of four digits (or `+` and more
/// digits past 9999; the current time is never before 1970).
#[verifier::external_body]
fn http_date_now() -> (r: String)
    ensures
        http_date(r@),
{
    chrono::Utc::now().format("%a, %d %b %Y %H:%M:%S GMT").to_string()
}

/// True when `s[from..]` is `w`.
fn tail_is(s: &str, from: usize, w: &str) -> (r: bool)
    requires
        from <= s@.len(),
    ensures
        r == (s@.subrange(from as int, s@.len() as int) == w@),
{
    let n = s.unicode_len();
    let m = w.unicode_len();
    if n - from != m {
        return false;
    }
    let mut i: usize = 0;
    while i < m
        invariant
            n == s@.len(),
            m == w@.len(),
            from + m == n,
            i <= m,
            forall|j: int| 0 <= j < i ==> s@[from + j] == w@[j],
        decreases m - i,
    {
        if s.get_char(from + i) != w.get_char(i) {
            assert(s@.subrange(from as int, n as int)[i as int] != w@[i as int]);
            return false;
        }
        i = i + 1;
    }
    assert(s@.subrange(from as int, n as int) =~= w@);
    true
}

/// The media type for the extension `s[from..]`.
fn type_for_tail(s: &str, from: usize) -> (r: String)
    requires
        from <= s@.len(),
    ensures
        r@ == content_type(s@.subrange(from as int, s@.len() as int)),
{
    if tail_is(s, from, "html") {
        String::from_str("text/html")
    } else if tail_is(s, from, "css") {
        String::from_str("text/css")
    } else if tail_is(s, from, "js") {
        String::from_str("application/javascript")
    } else if tail_is(s, from, "jpeg") || tail_is(s, from, "jpg") {
        String::from_str("image/jpeg")
    } else if tail_is(s, from, "png") {
        String::from_str("image/png")
    } else if tail_is(s, from, "swf") {
        String::from_str("application/x-shockwave-flash")
    } else if tail_is(s, from, "gif") {
        String::from_str("image/gif")
    } else {
        String::from_str("application/chiki_briki")
    }
}

/// The media type for a file extension.
pub fn get_content_type_by_ext(ext: &str) -> (r: String)
    ensures
        r@ == content_type(ext@),
{
    assert(ext@.subrange(0, ext@.len() as int) =~= ext@);
    type_for_tail(ext, 0)
}

/// Position of the last `x` in `s[..hi]`, or `hi` when there is none.
fn last_char_before(s: &str, x: char, hi: usize) -> (r: usize)
    requires
        hi <= s@.len(),
    ensures
        r <= hi,
        r == hi <==> last_index_of(s@.subrange(0, hi as int), x) == -1,
        r < hi ==> r == last_index_of(s@.subrange(0, hi as int), x),
{
    let mut i: usize = hi;
    while i > 0 && s.get_char(i - 1) != x
        invariant
            i <= hi <= s@.len(),
            last_index_of(s@.subrange(0, hi as int), x) == last_index_of(
                s@.subrange(0, i as int),
                x,
            ),
        decreases i,
    {
        assert(s@.subrange(0, i as int).drop_last() =~= s@.subrange(0, i - 1));
        i = i - 1;
    }
    if i == 0 {
        assert(s@.subrange(0, 0) =~= Seq::<char>::empty());
        hi
    } else {
        i - 1
    }
}

/// Where the extension of `s` starts, or `s@.len()` when it has none.
fn extension_start(s: &str) -> (r: usize)
    ensures
        r <= s@.len(),
        s@.subrange(r as int, s@.len() as int) == extension(s@),
{
    let n = s.unicode_len();
    assert(s@.subrange(0, n as int) =~= s@);
    let slash = last_char_before(s, '/', n);
    let start: usize = if slash == n {
        0
    } else {
        slash + 1
    };
    let ghost name = file_name(s@);
    proof {
        lemma_last_index_of_bounds(s@, '/');
        assert(name =~= s@.subrange(start as int, n as int));
    }
    let dot = last_char_before(s, '.', n);
    // the dot must lie inside the file name, after its first character
    if dot == n || dot <= start {
        proof {
            lemma_dot_in_name(s@, start as int);
        }
        assert(s@.subrange(n as int, n as int) =~= Seq::<char>::empty());
        n
    } else {
        proof {
            lemma_dot_in_name(s@, start as int);
            assert(name.subrange(dot - start + 1, name.len() as int) =~= s@.subrange(
                dot + 1,
                n as int,
            ));
        }
        dot + 1
    }
}

/// The last dot of a path, seen from its file name.
proof fn lemma_dot_in_name(p: Seq<char>, start: int)
    requires
        0 <= start <= p.len(),
        start == last_index_of(p, '/') + 1,
    ensures
        ({
            let d = last_index_of(p, '.');
            let n = p.subrange(start, p.len() as int);
            if d >= start {
                last_index_of(n, '.') == d - start
            } else {
                last_index_of(n, '.') == -1
            }
        }),
    decreases p.len() - start,
{
    let n = p.subrange(start, p.len() as int);
    if p.len() == start {
        lemma_last_index_of_bounds(p, '.');
    } else {
        assert(p.last() != '/');
        assert(last_index_of(p, '/') == last_index_of(p.drop_last(), '/'));
        assert(n.last() == p.last());
        assert(n.drop_last() =~= p.drop_last().subrange(start, p.len() - 1));
        if p.last() != '.' {
            lemma_dot_in_name(p.drop_last(), start);
        }
    }
}

pub struct HTTPResponse {
    pub headers: Vec<(String, String)>,
    pub status: Option<Status>,
    /// The file's content follows the head.
    pub file: bool,
}

impl HTTPResponse {
    pub open spec fn wf(&self) -> bool {
        unique_names(self.headers@)
    }

    /// The headers as a mapping from name to value.
    pub open spec fn header_view(&self) -> Map<Seq<char>, Seq<char>> {
        header_map(self.headers@)
    }

    pub fn new() -> (r: HTTPResponse)
        ensures
            r.wf(),
            r.header_view() == Map::<Seq<char>, Seq<char>>::empty(),
            r.headers@.len() == 0,
            r.status is None,
            !r.file,
    {
        HTTPResponse { headers: Vec::new(), status: None, file: false }
    }

    /// The status line, the headers and the blank line that end the head.
    pub fn head(&self) -> (r: String)
        requires
            self.status is Some,
        ensures
            r@ == head_text(self.status->0, self.headers@),
    {
        let mut r = String::from_str("HTTP/1.1 ");
        let st = self.status.unwrap().text();
        r.append(st.as_str());
        r.append("\r\n");
        let mut i: usize = 0;
        while i < self.headers.len()
            invariant
                self.status is Some,
                i <= self.headers@.len(),
                r@ == "HTTP/1.1 "@ + status_text(self.status->0) + "\r\n"@ + headers_text(
                    self.headers@.subrange(0, i as int),
                ),
            decreases self.headers@.len() - i,
        {
            let h = &self.headers[i];
            r.append(h.0.as_str());
            r.append(": ");
            r.append(h.1.as_str());
            r.append("\r\n");
            assert(self.headers@.subrange(0, i + 1).drop_last() =~= self.headers@.subrange(
                0,
                i as int,
            ));
            i = i + 1;
        }
        assert(self.headers@.subrange(0, i as int) =~= self.headers@);
        r.append("\r\n");
        r
    }

    /// Sets a header; a header of the same name is replaced.
    pub fn push_header(&mut self, header: String, value: String)
        requires
            old(self).wf(),
        ensures
            final(self).wf(),
            final(self).header_view() == old(self).header_view().insert(header@, value@),
            final(self).status == old(self).status,
            final(self).file == old(self).file,
    {
        let mut i: usize = 0;
        while i < self.headers.len()
            invariant
                i <= self.headers@.len(),
                self.headers@ == old(self).headers@,
                self.status == old(self).status,
                self.file == old(self).file,
                unique_names(self.headers@),
                forall|j: int| 0 <= j < i ==> self.headers@[j].0@ != header@,
            decreases self.headers@.len() - i,
        {
            if self.headers[i].0 == header {
                proof {
                    lemma_update_header(self.headers@, i as int, (header, value));
                }
                self.headers.set(i, (header, value));
                return;
            }
            i = i + 1;
        }
        let ghost h = header@;
        self.headers.push((header, value));
        assert(self.headers@.drop_last() =~= old(self).headers@);
        assert forall|a: int, b: int| 0 <= a < b < self.headers@.len() implies self.headers@[a].0@
            != self.headers@[b].0@ by {
            if b == self.headers@.len() - 1 {
                assert(self.headers@[a] == old(self).headers@[a]);
            } else {
                assert(self.headers@[a] == old(self).headers@[a]);
                assert(self.headers@[b] == old(self).headers@[b]);
            }
        }
    }

    /// Status 200; `body` says whether the file's content follows.
    #[allow(non_snake_case)]
    pub fn setOk(&mut self, body: bool)
        ensures
            final(self).status == Some(Status::Success),
            final(self).file == body,
            final(self).headers == old(self).headers,
    {
        self.file = body;
        self.status = Some(Status::Success);
    }

    #[allow(non_snake_case)]
    pub fn setNotFound(&mut self)
        ensures
            final(self).status == Some(Status::NotFound),
            !final(self).file,
            final(self).headers == old(self).headers,
    {
        self.file = false;
        self.status = Some(Status::NotFound);
    }

    #[allow(non_snake_case)]
    pub fn setBadRequest(&mut self)
        ensures
            final(self).status == Some(Status::BadRequest),
            !final(self).file,
            final(self).headers == old(self).headers,
    {
        self.file = false;
        self.status = Some(Status::BadRequest);
    }

    #[allow(non_snake_case)]
    pub fn setNotAllowed(&mut self)
        ensures
            final(self).status == Some(Status::NotAllowed),
            !final(self).file,
            final(self).headers == old(self).headers,
    {
        self.file = false;
        self.status = Some(Status::NotAllowed);
    }

    pub fn set403(&mut self)
        ensures
            final(self).status == Some(Status::Forbidden),
            !final(self).file,
            final(self).headers == old(self).headers,
    {
        self.file = false;
        self.status = Some(Status::Forbidden);
    }

    /// Sets `Content-Type` from the extension of `path`.
    #[allow(non_snake_case)]
    pub fn setContentType(&mut self, path: &str)
        requires
            old(self).wf(),
        ensures
            final(self).wf(),
            final(self).header_view() == old(self).header_view().insert(
                "Content-Type"@,
                content_type(extension(path@)),
            ),
            final(self).status == old(self).status,
            final(self).file == old(self).file,
    {
        let start = extension_start(path);
        let ct = type_for_tail(path, start);
        self.push_header(String::from_str("Content-Type"), ct);
    }

    /// Sets `Content-Length` to `len` in decimal.
    #[allow(non_snake_case)]
    pub fn setContentLength(&mut self, len: u64)
        requires
            old(self).wf(),
        ensures
            final(self).wf(),
            final(self).header_view() == old(self).header_view().insert(
                "Content-Length"@,
                decimal(len as nat),
            ),
            final(self).status == old(self).status,
            final(self).file == old(self).file,
    {
        let text = decimal_text(len);
        self.push_header(String::from_str("Content-Length"), text);
    }

    /// Sets `Date` to the current time.
    #[allow(non_snake_case)]
    pub fn setDate(&mut self)
        requires
            old(self).wf(),
        ensures
            final(self).wf(),
            final(self).header_view().dom().contains("Date"@),
            http_date(final(self).header_view()["Date"@]),
            final(self).header_view() == old(self).header_view().insert(
                "Date"@,
                final(self).header_view()["Date"@],
            ),
            final(self).status == old(self).status,
            final(self).file == old(self).file,
    {
        let now = http_date_now();
        self.push_header(String::from_str("Date"), now);
    }

    #[allow(non_snake_case)]
    pub fn setServer(&mut self, server: &str)
        requires
            old(self).wf(),
        ensures
            final(self).wf(),
            final(self).header_view() == old(self).header_view().insert("Server"@, server@),
            final(self).status == old(self).status,
            final(self).file == old(self).file,
    {
        self.push_header(String::from_str("Server"), server.to_owned());
    }

    #[allow(non_snake_case)]
    pub fn setConnection(&mut self, conn: &str)
        requires
            old(self).wf(),
        ensures
            final(self).wf(),
            final(self).header_view() == old(self).header_view().insert("Connection"@, conn@),
            final(self).status == old(self).status,
            final(self).file == old(self).file,
    {
        self.push_header(String::from_str("Connection"), conn.to_owned());
    }
}

/// Replacing the value of a header changes that name's value alone.
proof fn lemma_update_header(hs: Seq<(String, String)>, i: int, p: (String, String))
    requires
        unique_names(hs),
        0 <= i < hs.len(),
        p.0@ == hs[i].0@,
    ensures
        unique_names(hs.update(i, p)),
        header_map(hs.update(i, p)) == header_map(hs).insert(p.0@, p.1@),
    decreases hs.len(),
{
    let u = hs.update(i, p);
    assert(u.drop_last() =~= if i == hs.len() - 1 {
        hs.drop_last()
    } else {
        hs.drop_last().update(i, p)
    });
    if i == hs.len() - 1 {
        assert(header_map(u) =~= header_map(hs).insert(p.0@, p.1@));
    } else {
        lemma_update_header(hs.drop_last(), i, p);
        assert(hs.last().0@ != p.0@);
        assert(header_map(u) =~= header_map(hs).insert(p.0@, p.1@));
    }
}

} // verus!
