//! The configuration text: a `document_root` line and a `thread_limit` line.

use vstd::prelude::*;
use vstd::string::*;
use crate::text::index_of;

verus! {

pub const DOCUMENT_ROOT_ERROR: &'static str = "Can't find document_root";

pub const DOCUMENT_ROOT_INVALID_FORMAT: &'static str = "Invalid document root format";

pub const THREAD_LIMIT_ERROR: &'static str = "Can't find thread_limit";

pub const THREAD_LIMIT_INVALID_FORMAT: &'static str = "Invalid thread limit format";

#[derive(Debug)]
pub struct Config {
    pub thread_count: u16,
    pub dir_root: String,
}

/// The lines of `s`, split on `\n`.
pub open spec fn lines(s: Seq<char>) -> Seq<Seq<char>>
    decreases s.len(),
{
    if s.len() == 0 {
        seq![Seq::empty()]
    } else {
        let l = lines(s.drop_last());
        if s.last() == '\n' {
            l.push(Seq::empty())
        } else {
            l.update(l.len() - 1, l.last().push(s.last()))
        }
    }
}

proof fn lemma_lines_nonempty(s: Seq<char>)
    ensures
        lines(s).len() >= 1,
    decreases s.len(),
{
    if s.len() > 0 {
        lemma_lines_nonempty(s.drop_last());
    }
}

/// `w` occurs in `line` at position `i`.
pub open spec fn occurs_at(line: Seq<char>, w: Seq<char>, i: int) -> bool {
    0 <= i && i + w.len() <= line.len() && line.subrange(i, i + w.len()) == w
}

pub open spec fn contains(line: Seq<char>, w: Seq<char>) -> bool {
    exists|i: int| #[trigger] occurs_at(line, w, i)
}

/// The first of `ls` that contains `w`.
pub open spec fn first_containing(ls: Seq<Seq<char>>, w: Seq<char>) -> Option<Seq<char>>
    decreases ls.len(),
{
    if ls.len() == 0 {
        None
    } else if contains(ls[0], w) {
        Some(ls[0])
    } else {
        first_containing(ls.drop_first(), w)
    }
}

/// White space as `char::is_whitespace` has it (Unicode `White_Space`).
pub open spec fn is_space(c: char) -> bool {
    ('\u{9}' <= c <= '\u{d}') || c == ' ' || c == '\u{85}' || c == '\u{a0}' || c == '\u{1680}'
        || ('\u{2000}' <= c <= '\u{200a}') || c == '\u{2028}' || c == '\u{2029}' || c
        == '\u{202f}' || c == '\u{205f}' || c == '\u{3000}'
}

pub open spec fn trim_start(s: Seq<char>) -> Seq<char>
    decreases s.len(),
{
    if s.len() > 0 && is_space(s[0]) {
        trim_start(s.drop_first())
    } else {
        s
    }
}

pub open spec fn trim_end(s: Seq<char>) -> Seq<char>
    decreases s.len(),
{
    if s.len() > 0 && is_space(s.last()) {
        trim_end(s.drop_last())
    } else {
        s
    }
}

/// `s` without leading and trailing white space.
pub open spec fn trim(s: Seq<char>) -> Seq<char> {
    trim_end(trim_start(s))
}

/// The second of the two tokens that `t` splits into on single spaces;
/// `None` when it does not split into exactly two.
pub open spec fn pair_value(t: Seq<char>) -> Option<Seq<char>> {
    let sp = index_of(t, ' ');
    let rest = t.subrange(sp + 1, t.len() as int);
    if sp < t.len() && index_of(rest, ' ') == rest.len() {
        Some(rest)
    } else {
        None
    }
}

pub open spec fn is_digit(c: char) -> bool {
    '0' <= c <= '9'
}

/// The value of a string of decimal digits.
pub open spec fn digits_value(s: Seq<char>) -> nat
    decreases s.len(),
{
    if s.len() == 0 {
        0
    } else {
        digits_value(s.drop_last()) * 10 + (s.last() as nat - '0' as nat) as nat
    }
}

/// `s` without one leading `+`.
pub open spec fn unsigned_digits(s: Seq<char>) -> Seq<char> {
    if s.len() > 0 && s[0] == '+' {
        s.drop_first()
    } else {
        s
    }
}

/// A `u16` written in decimal, with an optional leading `+`.
pub open spec fn parse_u16(s: Seq<char>) -> Option<u16> {
    let d = unsigned_digits(s);
    if d.len() > 0 && (forall|i: int| 0 <= i < d.len() ==> is_digit(#[trigger] d[i]))
        && digits_value(d) <= 65535 {
        Some(digits_value(d) as u16)
    } else {
        None
    }
}

/// What a configuration text gives: the thread limit and the document root,
/// or the text of the first error met. The thread limit must be positive.
pub open spec fn config_of(s: Seq<char>) -> Result<(u16, Seq<char>), Seq<char>> {
    match first_containing(lines(s), "document_root"@) {
        None => Err(DOCUMENT_ROOT_ERROR@),
        Some(l) => match pair_value(trim(l)) {
            None => Err(DOCUMENT_ROOT_INVALID_FORMAT@),
            Some(root) => match first_containing(lines(s), "thread_limit"@) {
                None => Err(THREAD_LIMIT_ERROR@),
                Some(l2) => match pair_value(trim(l2)) {
                    None => Err(THREAD_LIMIT_INVALID_FORMAT@),
                    Some(v) => match parse_u16(v) {
                        None => Err(THREAD_LIMIT_INVALID_FORMAT@),
                        Some(n) => if n == 0 {
                            Err(THREAD_LIMIT_INVALID_FORMAT@)
                        } else {
                            Ok((n, root))
                        },
                    },
                },
            },
        },
    }
}

/// Relies on `FromIterator<&char>` for `String`, which appends the characters
/// in order.
#[verifier::external_body]
fn string_from_chars(v: &Vec<char>) -> (r: String)
    ensures
        r@ == v@,
{
    v.iter().collect()
}

fn chars_of(s: &str) -> (r: Vec<char>)
    ensures
        r@ == s@,
{
    let n = s.unicode_len();
    let mut r: Vec<char> = Vec::new();
    let mut i: usize = 0;
    while i < n
        invariant
            n == s@.len(),
            i <= n,
            r@ == s@.subrange(0, i as int),
        decreases n - i,
    {
        r.push(s.get_char(i));
        assert(r@ =~= s@.subrange(0, i + 1));
        i = i + 1;
    }
    assert(r@ =~= s@);
    r
}

fn split_lines(s: &Vec<char>) -> (r: Vec<Vec<char>>)
    ensures
        r@.len() == lines(s@).len(),
        forall|k: int| 0 <= k < r@.len() ==> #[trigger] r@[k]@ == lines(s@)[k],
{
    let mut done: Vec<Vec<char>> = Vec::new();
    let mut cur: Vec<char> = Vec::new();
    let mut i: usize = 0;
    while i < s.len()
        invariant
            i <= s@.len(),
            done@.len() + 1 == lines(s@.subrange(0, i as int)).len(),
            forall|k: int|
                0 <= k < done@.len() ==> #[trigger] done@[k]@ == lines(s@.subrange(0, i as int))[k],
            cur@ == lines(s@.subrange(0, i as int)).last(),
        decreases s@.len() - i,
    {
        let ghost before = lines(s@.subrange(0, i as int));
        assert(s@.subrange(0, i + 1).drop_last() =~= s@.subrange(0, i as int));
        proof {
            lemma_lines_nonempty(s@.subrange(0, i as int));
        }
        let c = s[i];
        if c == '\n' {
            let line = cur;
            done.push(line);
            cur = Vec::new();
            assert(lines(s@.subrange(0, i + 1)) == before.push(Seq::empty()));
        } else {
            cur.push(c);
        }
        i = i + 1;
    }
    assert(s@.subrange(0, i as int) =~= s@);
    proof {
        lemma_lines_nonempty(s@);
    }
    done.push(cur);
    done
}

/// True when `w` occurs in `line` at `i`.
fn occurs_at_exec(line: &Vec<char>, w: &Vec<char>, i: usize) -> (r: bool)
    ensures
        r == occurs_at(line@, w@, i as int),
{
    if i > line.len() || line.len() - i < w.len() {
        return false;
    }
    let n = line.len();
    let mut j: usize = 0;
    while j < w.len()
        invariant
            n == line@.len(),
            i + w@.len() <= n,
            j <= w@.len(),
            forall|k: int| 0 <= k < j ==> line@[i + k] == w@[k],
        decreases w@.len() - j,
    {
        let at: usize = i + j;
        if line[at] != w[j] {
            assert(line@.subrange(i as int, i + w@.len())[j as int] != w@[j as int]);
            return false;
        }
        j = j + 1;
    }
    assert(line@.subrange(i as int, i + w@.len()) =~= w@);
    true
}

fn contains_exec(line: &Vec<char>, w: &Vec<char>) -> (r: bool)
    ensures
        r == contains(line@, w@),
{
    let mut i: usize = 0;
    while i < line.len()
        invariant
            i <= line@.len(),
            forall|k: int| 0 <= k < i ==> !#[trigger] occurs_at(line@, w@, k),
        decreases line@.len() - i,
    {
        if occurs_at_exec(line, w, i) {
            return true;
        }
        i = i + 1;
    }
    if occurs_at_exec(line, w, i) {
        return true;
    }
    assert forall|k: int| !#[trigger] occurs_at(line@, w@, k) by {
        if 0 <= k <= i {
        }
    }
    false
}

/// Index of the first line that contains `w`.
fn find_line(ls: &Vec<Vec<char>>, w: &Vec<char>) -> (r: Option<usize>)
    ensures
        match r {
            Some(k) => k < ls@.len() && first_containing(ls@.map_values(|l: Vec<char>| l@), w@)
                == Some(ls@[k as int]@),
            None => first_containing(ls@.map_values(|l: Vec<char>| l@), w@) is None,
        },
{
    let ghost all = ls@.map_values(|l: Vec<char>| l@);
    let mut k: usize = 0;
    assert(all.subrange(0, all.len() as int) =~= all);
    while k < ls.len()
        invariant
            k <= ls@.len(),
            all == ls@.map_values(|l: Vec<char>| l@),
            first_containing(all, w@) == first_containing(
                all.subrange(k as int, all.len() as int),
                w@,
            ),
        decreases ls@.len() - k,
    {
        let ghost rest = all.subrange(k as int, all.len() as int);
        assert(rest[0] == ls@[k as int]@);
        if contains_exec(&ls[k], w) {
            return Some(k);
        }
        assert(rest.drop_first() =~= all.subrange(k + 1, all.len() as int));
        k = k + 1;
    }
    None
}

/// Bounds of `trim(s)` in `s`.
fn trim_bounds(s: &Vec<char>) -> (r: (usize, usize))
    ensures
        r.0 <= r.1 <= s@.len(),
        s@.subrange(r.0 as int, r.1 as int) == trim(s@),
{
    let n = s.len();
    let mut lo: usize = 0;
    assert(s@.subrange(0, n as int) =~= s@);
    while lo < n && is_space_exec(s[lo])
        invariant
            lo <= n == s@.len(),
            trim_start(s@) == trim_start(s@.subrange(lo as int, n as int)),
        decreases n - lo,
    {
        assert(s@.subrange(lo as int, n as int).drop_first() =~= s@.subrange(lo + 1, n as int));
        lo = lo + 1;
    }
    let mut hi: usize = n;
    assert(trim_start(s@) == s@.subrange(lo as int, n as int));
    while hi > lo && is_space_exec(s[hi - 1])
        invariant
            lo <= hi <= n == s@.len(),
            trim(s@) == trim_end(s@.subrange(lo as int, hi as int)),
        decreases hi - lo,
    {
        assert(s@.subrange(lo as int, hi as int).drop_last() =~= s@.subrange(lo as int, hi - 1));
        hi = hi - 1;
    }
    (lo, hi)
}

fn is_space_exec(c: char) -> (r: bool)
    ensures
        r == is_space(c),
{
    ('\u{9}' <= c && c <= '\u{d}') || c == ' ' || c == '\u{85}' || c == '\u{a0}' || c
        == '\u{1680}' || ('\u{2000}' <= c && c <= '\u{200a}') || c == '\u{2028}' || c
        == '\u{2029}' || c == '\u{202f}' || c == '\u{205f}' || c == '\u{3000}'
}

/// The value of the line `line`, trimmed, when it splits into two tokens.
fn pair_value_exec(line: &Vec<char>) -> (r: Option<Vec<char>>)
    ensures
        match r {
            Some(v) => pair_value(trim(line@)) == Some(v@),
            None => pair_value(trim(line@)) is None,
        },
{
    let (lo, hi) = trim_bounds(line);
    let ghost t = line@.subrange(lo as int, hi as int);
    let mut sp: usize = lo;
    while sp < hi && line[sp] != ' '
        invariant
            lo <= sp <= hi <= line@.len(),
            index_of(t, ' ') == (sp - lo) + index_of(line@.subrange(sp as int, hi as int), ' '),
        decreases hi - sp,
    {
        assert(line@.subrange(sp as int, hi as int).drop_first() =~= line@.subrange(
            sp + 1,
            hi as int,
        ));
        sp = sp + 1;
    }
    if sp == hi {
        assert(line@.subrange(sp as int, hi as int).len() == 0);
        return None;
    }
    assert(line@.subrange(sp as int, hi as int)[0] == ' ');
    let mut v: Vec<char> = Vec::new();
    let mut j: usize = sp + 1;
    let ghost rest = t.subrange(index_of(t, ' ') + 1, t.len() as int);
    assert(rest =~= line@.subrange(sp + 1, hi as int));
    while j < hi
        invariant
            sp < j <= hi <= line@.len(),
            rest == line@.subrange(sp + 1, hi as int),
            rest == t.subrange(index_of(t, ' ') + 1, t.len() as int),
            index_of(t, ' ') < t.len(),
            t == trim(line@),
            v@ == line@.subrange(sp + 1, j as int),
            forall|k: int| 0 <= k < v@.len() ==> v@[k] != ' ',
        decreases hi - j,
    {
        if line[j] == ' ' {
            proof {
                crate::text::lemma_index_of_bounds(rest, ' ');
                assert forall|k: int| 0 <= k < j - sp - 1 implies rest[k] != ' ' by {
                    assert(rest[k] == v@[k]);
                }
                crate::text::lemma_index_of_first(rest, ' ', j - sp - 1);
            }
            return None;
        }
        v.push(line[j]);
        assert(v@ =~= line@.subrange(sp + 1, j + 1));
        j = j + 1;
    }
    proof {
        crate::text::lemma_index_of_bounds(rest, ' ');
        assert(v@ == rest);
        if index_of(rest, ' ') < rest.len() {
            assert(rest[index_of(rest, ' ')] == v@[index_of(rest, ' ')]);
        }
    }
    Some(v)
}

/// `digits_value` grows with each digit.
proof fn lemma_digits_value_step(s: Seq<char>, i: int)
    requires
        0 <= i < s.len(),
        is_digit(s[i]),
    ensures
        digits_value(s.subrange(0, i + 1)) == digits_value(s.subrange(0, i)) * 10 + (s[i] as nat
            - '0' as nat),
        digits_value(s.subrange(0, i + 1)) >= digits_value(s.subrange(0, i)),
{
    assert(s.subrange(0, i + 1).drop_last() =~= s.subrange(0, i));
}

proof fn lemma_digits_value_grows(s: Seq<char>, i: int, j: int)
    requires
        0 <= i <= j <= s.len(),
        forall|k: int| 0 <= k < s.len() ==> is_digit(#[trigger] s[k]),
    ensures
        digits_value(s.subrange(0, j)) >= digits_value(s.subrange(0, i)),
    decreases j - i,
{
    if i < j {
        lemma_digits_value_step(s, j - 1);
        lemma_digits_value_grows(s, i, j - 1);
    }
}

fn parse_u16_exec(s: &Vec<char>) -> (r: Option<u16>)
    ensures
        r == parse_u16(s@),
{
    let start: usize = if s.len() > 0 && s[0] == '+' {
        1
    } else {
        0
    };
    let ghost d = unsigned_digits(s@);
    assert(d =~= s@.subrange(start as int, s@.len() as int));
    if start == s.len() {
        return None;
    }
    let mut i: usize = start;
    while i < s.len()
        invariant
            start <= i <= s@.len(),
            d == unsigned_digits(s@),
            d == s@.subrange(start as int, s@.len() as int),
            forall|k: int| 0 <= k < i - start ==> is_digit(#[trigger] d[k]),
        decreases s@.len() - i,
    {
        let c = s[i];
        assert(d[i - start] == c);
        if !('0' <= c && c <= '9') {
            return None;
        }
        i = i + 1;
    }
    let mut acc: u32 = 0;
    let mut i: usize = start;
    while i < s.len()
        invariant
            start <= i <= s@.len(),
            d == unsigned_digits(s@),
            d == s@.subrange(start as int, s@.len() as int),
            forall|k: int| 0 <= k < d.len() ==> is_digit(#[trigger] d[k]),
            acc == digits_value(d.subrange(0, i - start)),
            acc <= 65535,
        decreases s@.len() - i,
    {
        let c = s[i];
        assert(d[i - start] == c);
        proof {
            lemma_digits_value_step(d, i - start);
        }
        acc = acc * 10 + (c as u32 - '0' as u32);
        if acc > 65535 {
            proof {
                assert(d.subrange(0, d.len() as int) =~= d);
                lemma_digits_value_grows(d, i - start + 1, d.len() as int);
            }
            return None;
        }
        i = i + 1;
    }
    assert(d.subrange(0, d.len() as int) =~= d);
    Some(acc as u16)
}

impl Config {
    /// Reads the configuration from its text. The first line that contains
    /// `document_root`, trimmed, must be that name and a value separated by
    /// one space; the same for `thread_limit`, whose value is a positive `u16`.
    pub fn parse(raw: String) -> (r: Result<Config, String>)
        ensures
            match r {
                Ok(c) => config_of(raw@) == Ok::<(u16, Seq<char>), Seq<char>>(
                    (c.thread_count, c.dir_root@),
                ),
                Err(e) => config_of(raw@) == Err::<(u16, Seq<char>), Seq<char>>(e@),
            },
    {
        let cs = chars_of(raw.as_str());
        let ls = split_lines(&cs);
        proof {
            assert(ls@.map_values(|l: Vec<char>| l@) =~= lines(cs@));
        }
        let root_name = chars_of("document_root");
        let root_line = match find_line(&ls, &root_name) {
            Some(k) => k,
            None => return Err(String::from_str(DOCUMENT_ROOT_ERROR)),
        };
        let root = match pair_value_exec(&ls[root_line]) {
            Some(v) => v,
            None => return Err(String::from_str(DOCUMENT_ROOT_INVALID_FORMAT)),
        };
        let limit_name = chars_of("thread_limit");
        let limit_line = match find_line(&ls, &limit_name) {
            Some(k) => k,
            None => return Err(String::from_str(THREAD_LIMIT_ERROR)),
        };
        let limit = match pair_value_exec(&ls[limit_line]) {
            Some(v) => v,
            None => return Err(String::from_str(THREAD_LIMIT_INVALID_FORMAT)),
        };
        let count = match parse_u16_exec(&limit) {
            Some(n) => n,
            None => return Err(String::from_str(THREAD_LIMIT_INVALID_FORMAT)),
        };
        if count == 0 {
            return Err(String::from_str(THREAD_LIMIT_INVALID_FORMAT));
        }
        Ok(Config { thread_count: count, dir_root: string_from_chars(&root) })
    }
}

} // verus!
