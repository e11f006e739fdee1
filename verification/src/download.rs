//! Naming a downloaded file, and reading the headers of a download.

use vstd::prelude::*;
use crate::text::{chars_of, push_str, string_of};

verus! {

/// `u` without one trailing `/`, if it has one.
pub open spec fn without_trailing_slash(u: Seq<char>) -> Seq<char> {
    if u.len() > 0 && u.last() == '/' {
        u.drop_last()
    } else {
        u
    }
}

/// The text after the last `/` of `u` (all of `u` when it has none).
pub open spec fn last_segment(u: Seq<char>) -> Seq<char>
    decreases u.len(),
{
    if u.len() == 0 {
        Seq::empty()
    } else if u.last() == '/' {
        Seq::empty()
    } else {
        last_segment(u.drop_last()).push(u.last())
    }
}

/// `c` ends the path of a URL: it starts the query or the fragment.
pub open spec fn ends_url_path(c: char) -> bool {
    c == '?' || c == '#'
}

/// The index from `i` on where the path of the URL `u` ends: the first `?` or
/// `#`, or the end of `u`.
pub open spec fn path_end_from(u: Seq<char>, i: int) -> int
    decreases u.len() - i,
{
    if i < 0 || i >= u.len() {
        u.len() as int
    } else if ends_url_path(u[i]) {
        i
    } else {
        path_end_from(u, i + 1)
    }
}

/// The URL `u` without its query and fragment.
pub open spec fn url_without_query(u: Seq<char>) -> Seq<char> {
    u.take(path_end_from(u, 0))
}

/// The file name that a URL gives: the last segment of its path (query and
/// fragment left out), a single trailing slash ignored; what is left of the
/// URL when that segment is empty.
pub open spec fn spec_file_name_from_url(url: Seq<char>) -> Seq<char> {
    let u = without_trailing_slash(url_without_query(url));
    if last_segment(u).len() > 0 {
        last_segment(u)
    } else {
        u
    }
}

proof fn lemma_path_end_bounds(u: Seq<char>, i: int)
    requires
        0 <= i <= u.len(),
    ensures
        i <= path_end_from(u, i) <= u.len(),
    decreases u.len() - i,
{
    if i < u.len() && !ends_url_path(u[i]) {
        lemma_path_end_bounds(u, i + 1);
    }
}

/// Derive a file name from the last path segment of a URL, ignoring a single
/// trailing slash; the query and the fragment are not part of the path.
pub fn file_name_from_url(url: &str) -> (name: String)
    ensures
        name@ == spec_file_name_from_url(url@),
{
    let cs = chars_of(url);
    let mut n: usize = 0;
    while n < cs.len() && !(cs[n] == '?' || cs[n] == '#')
        invariant
            n <= cs@.len(),
            path_end_from(cs@, 0) == path_end_from(cs@, n as int),
        decreases cs@.len() - n,
    {
        n = n + 1;
    }
    assert(path_end_from(cs@, 0) == n);
    assert(url_without_query(url@) =~= cs@.take(n as int));
    if n > 0 && cs[n - 1] == '/' {
        n = n - 1;
    }
    let ghost u = without_trailing_slash(url_without_query(url@));
    assert(u =~= cs@.take(n as int));
    let mut start: usize = 0;
    let mut i: usize = 0;
    assert(cs@.take(0) =~= Seq::<char>::empty());
    while i < n
        invariant
            n <= cs@.len(),
            u == cs@.take(n as int),
            start <= i <= n,
            last_segment(cs@.take(i as int)) == cs@.subrange(start as int, i as int),
        decreases n - i,
    {
        assert(cs@.take(i + 1).drop_last() =~= cs@.take(i as int));
        if cs[i] == '/' {
            start = i + 1;
            assert(cs@.subrange(start as int, i + 1) =~= Seq::<char>::empty());
        } else {
            assert(cs@.subrange(start as int, i as int).push(cs@[i as int]) =~= cs@.subrange(
                start as int,
                i + 1,
            ));
        }
        i = i + 1;
    }
    if start < n {
        string_of(&cs.as_slice()[start..n])
    } else {
        assert(cs@.subrange(0, n as int) =~= u);
        string_of(&cs.as_slice()[0..n])
    }
}

proof fn lemma_path_end_at(s: Seq<char>, i: int, k: int)
    requires
        0 <= i <= k <= s.len(),
        forall|j: int| i <= j < k ==> !ends_url_path(#[trigger] s[j]),
        k == s.len() || ends_url_path(s[k]),
    ensures
        path_end_from(s, i) == k,
    decreases k - i,
{
    if i < k {
        lemma_path_end_at(s, i + 1, k);
    }
}

/// A URL path: it holds no `?` and no `#`.
pub open spec fn is_url_path(p: Seq<char>) -> bool {
    forall|j: int| 0 <= j < p.len() ==> !ends_url_path(#[trigger] p[j])
}

/// The query and the fragment of a URL do not change the file name it gives.
pub proof fn law_file_name_ignores_query(path: Seq<char>, rest: Seq<char>)
    requires
        is_url_path(path),
        rest.len() > 0,
        ends_url_path(rest[0]),
    ensures
        spec_file_name_from_url(path + rest) == spec_file_name_from_url(path),
{
    let s = path + rest;
    assert forall|j: int| 0 <= j < path.len() implies !ends_url_path(#[trigger] s[j]) by {
        assert(s[j] == path[j]);
    }
    lemma_path_end_at(s, 0, path.len() as int);
    lemma_path_end_at(path, 0, path.len() as int);
    assert(s.take(path.len() as int) =~= path);
    assert(path.take(path.len() as int) =~= path);
}

/// A URL with one trailing slash names the same file as the URL without it.
pub proof fn law_file_name_ignores_trailing_slash(url: Seq<char>)
    requires
        is_url_path(url),
        url.len() == 0 || url.last() != '/',
    ensures
        spec_file_name_from_url(url.push('/')) == spec_file_name_from_url(url),
{
    let s = url.push('/');
    assert forall|j: int| 0 <= j < s.len() implies !ends_url_path(#[trigger] s[j]) by {
        if j < url.len() {
            assert(s[j] == url[j]);
        }
    }
    lemma_path_end_at(s, 0, s.len() as int);
    lemma_path_end_at(url, 0, url.len() as int);
    assert(s.take(s.len() as int) =~= s);
    assert(url.take(url.len() as int) =~= url);
    assert(s.drop_last() =~= url);
}

proof fn lemma_last_segment_has_no_slash(u: Seq<char>)
    ensures
        forall|i: int| 0 <= i < last_segment(u).len() ==> last_segment(u)[i] != '/',
    decreases u.len(),
{
    if u.len() > 0 && u.last() != '/' {
        lemma_last_segment_has_no_slash(u.drop_last());
        let r = last_segment(u.drop_last());
        assert forall|i: int| 0 <= i < r.len() + 1 implies #[trigger] r.push(u.last())[i] != '/' by {
            if i < r.len() {
                assert(r.push(u.last())[i] == r[i]);
            }
        }
    }
}

/// The name taken from a URL is a plain file name, free of `/`, unless the
/// URL's path has no last segment at all, in which case that path is used.
pub proof fn law_url_file_name_is_plain(url: Seq<char>)
    ensures
        last_segment(without_trailing_slash(url_without_query(url))).len() > 0 ==> forall|i: int|
            0 <= i < spec_file_name_from_url(url).len() ==> spec_file_name_from_url(url)[i] != '/',
        last_segment(without_trailing_slash(url_without_query(url))).len() == 0
            ==> spec_file_name_from_url(url) == without_trailing_slash(url_without_query(url)),
{
    lemma_last_segment_has_no_slash(without_trailing_slash(url_without_query(url)));
}

/// The parameter name that introduces a file name in a `Content-Disposition`.
pub open spec fn filename_key() -> Seq<char> {
    seq!['f', 'i', 'l', 'e', 'n', 'a', 'm', 'e', '=']
}

/// `filename=` starts at index `i` of `s`.
pub open spec fn key_at(s: Seq<char>, i: int) -> bool {
    0 <= i && i + 9 <= s.len() && s.subrange(i, i + 9) == filename_key()
}

/// The first index from `from` on where `filename=` starts.
pub open spec fn first_key_from(s: Seq<char>, from: int) -> Option<int>
    decreases s.len() - from,
{
    if from < 0 || from + 9 > s.len() {
        None
    } else if key_at(s, from) {
        Some(from)
    } else {
        first_key_from(s, from + 1)
    }
}

/// The index from `i` on where a parameter value ends: the first `;` that
/// is not between double quotes, or the end of `s`. `quoted` tells whether
/// index `i` lies between quotes.
pub open spec fn value_end_from(s: Seq<char>, i: int, quoted: bool) -> int
    decreases s.len() - i,
{
    if i < 0 || i >= s.len() {
        s.len() as int
    } else if s[i] == '"' {
        value_end_from(s, i + 1, !quoted)
    } else if s[i] == ';' && !quoted {
        i
    } else {
        value_end_from(s, i + 1, quoted)
    }
}

/// Where the value that starts at `start` ends: at the first `;` outside
/// quotes or where the next `filename=` starts, whichever comes first, or at
/// the end of `s`.
pub open spec fn field_end(s: Seq<char>, start: int) -> int {
    let semicolon = value_end_from(s, start, false);
    let next_key = match first_key_from(s, start) {
        Some(j) => j,
        None => s.len() as int,
    };
    if semicolon <= next_key {
        semicolon
    } else {
        next_key
    }
}

/// The value of the first `filename=` parameter: the text after it up to the
/// next `;` outside quotes or the next `filename=` (or the end).
pub open spec fn filename_field(s: Seq<char>) -> Option<Seq<char>> {
    match first_key_from(s, 0) {
        None => None,
        Some(i) => Some(s.subrange(i + 9, field_end(s, i + 9))),
    }
}

proof fn lemma_value_end_bounds(s: Seq<char>, i: int, quoted: bool)
    requires
        0 <= i <= s.len(),
    ensures
        i <= value_end_from(s, i, quoted) <= s.len(),
    decreases s.len() - i,
{
    if i < s.len() {
        if s[i] == '"' {
            lemma_value_end_bounds(s, i + 1, !quoted);
        } else if !(s[i] == ';' && !quoted) {
            lemma_value_end_bounds(s, i + 1, quoted);
        }
    }
}

/// Unicode white space, as `char::is_whitespace` reads it.
pub open spec fn is_white_space(c: char) -> bool {
    ||| '\t' <= c <= '\r'
    ||| c == ' '
    ||| c == '\u{85}'
    ||| c == '\u{a0}'
    ||| c == '\u{1680}'
    ||| '\u{2000}' <= c <= '\u{200a}'
    ||| c == '\u{2028}'
    ||| c == '\u{2029}'
    ||| c == '\u{202f}'
    ||| c == '\u{205f}'
    ||| c == '\u{3000}'
}

/// `s` without its leading white space.
pub open spec fn trim_start(s: Seq<char>) -> Seq<char>
    decreases s.len(),
{
    if s.len() > 0 && is_white_space(s[0]) {
        trim_start(s.drop_first())
    } else {
        s
    }
}

/// `s` without its trailing white space.
pub open spec fn trim_end(s: Seq<char>) -> Seq<char>
    decreases s.len(),
{
    if s.len() > 0 && is_white_space(s.last()) {
        trim_end(s.drop_last())
    } else {
        s
    }
}

/// `s` with every `"` removed.
pub open spec fn without_quotes(s: Seq<char>) -> Seq<char>
    decreases s.len(),
{
    if s.len() == 0 {
        s
    } else if s.last() == '"' {
        without_quotes(s.drop_last())
    } else {
        without_quotes(s.drop_last()).push(s.last())
    }
}

/// The file name that a `Content-Disposition` value gives, if any.
pub open spec fn spec_file_name_from_content_disposition(value: Seq<char>) -> Option<Seq<char>> {
    match filename_field(value) {
        None => None,
        Some(field) => {
            let name = without_quotes(trim_end(trim_start(field)));
            if name.len() > 0 {
                Some(name)
            } else {
                None
            }
        },
    }
}

fn is_white_space_char(c: char) -> (r: bool)
    ensures
        r == is_white_space(c),
{
    ('\t' <= c && c <= '\r') || c == ' ' || c == '\u{85}' || c == '\u{a0}' || c == '\u{1680}'
        || ('\u{2000}' <= c && c <= '\u{200a}') || c == '\u{2028}' || c == '\u{2029}' || c
        == '\u{202f}' || c == '\u{205f}' || c == '\u{3000}'
}

fn key_at_exec(s: &Vec<char>, i: usize) -> (r: bool)
    ensures
        r == key_at(s@, i as int),
{
    if i > s.len() || s.len() - i < 9 {
        return false;
    }
    let r = s[i] == 'f' && s[i + 1] == 'i' && s[i + 2] == 'l' && s[i + 3] == 'e' && s[i + 4]
        == 'n' && s[i + 5] == 'a' && s[i + 6] == 'm' && s[i + 7] == 'e' && s[i + 8] == '=';
    if r {
        assert(s@.subrange(i as int, i + 9) =~= filename_key());
    } else {
        assert(s@.subrange(i as int, i + 9) != filename_key()) by {
            if s@.subrange(i as int, i + 9) == filename_key() {
                assert(s@.subrange(i as int, i + 9)[0] == 'f');
                assert(s@.subrange(i as int, i + 9)[1] == 'i');
                assert(s@.subrange(i as int, i + 9)[2] == 'l');
                assert(s@.subrange(i as int, i + 9)[3] == 'e');
                assert(s@.subrange(i as int, i + 9)[4] == 'n');
                assert(s@.subrange(i as int, i + 9)[5] == 'a');
                assert(s@.subrange(i as int, i + 9)[6] == 'm');
                assert(s@.subrange(i as int, i + 9)[7] == 'e');
                assert(s@.subrange(i as int, i + 9)[8] == '=');
            }
        }
    }
    r
}

fn first_key_from_exec(s: &Vec<char>, from: usize) -> (r: Option<usize>)
    ensures
        match r {
            Some(j) => first_key_from(s@, from as int) == Some(j as int),
            None => first_key_from(s@, from as int) is None,
        },
        r matches Some(j) ==> from <= j && j + 9 <= s@.len(),
{
    let mut i = from;
    while i <= s.len() && s.len() - i >= 9
        invariant
            from <= i,
            first_key_from(s@, from as int) == first_key_from(s@, i as int),
        decreases s@.len() - i,
    {
        if key_at_exec(s, i) {
            return Some(i);
        }
        i = i + 1;
    }
    None
}

/// Extract the file name from a `Content-Disposition` header value, if it
/// contains a `filename=` parameter.
pub fn file_name_from_content_disposition(value: &str) -> (name: Option<String>)
    ensures
        match name {
            Some(n) => spec_file_name_from_content_disposition(value@) == Some(n@),
            None => spec_file_name_from_content_disposition(value@) is None,
        },
{
    let s = chars_of(value);
    let n = s.len();
    let i = match first_key_from_exec(&s, 0) {
        Some(i) => i,
        None => return None,
    };
    let mut end = i + 9;
    let mut quoted = false;
    while end < n && !(s[end] == ';' && !quoted)
        invariant
            i + 9 <= end <= n,
            n == s@.len(),
            value_end_from(s@, i + 9, false) == value_end_from(s@, end as int, quoted),
        decreases n - end,
    {
        if s[end] == '"' {
            quoted = !quoted;
        }
        end = end + 1;
    }
    assert(value_end_from(s@, i + 9, false) == end);
    match first_key_from_exec(&s, i + 9) {
        Some(j) => {
            if j < end {
                end = j;
            }
        },
        None => {},
    }
    assert(end == field_end(s@, i + 9));
    let ghost field = s@.subrange(i + 9, end as int);
    // trim the start
    let mut a = i + 9;
    assert(s@.subrange(a as int, end as int) == field);
    while a < end && is_white_space_char(s[a])
        invariant
            i + 9 <= a <= end <= s@.len(),
            trim_start(field) == trim_start(s@.subrange(a as int, end as int)),
        decreases end - a,
    {
        assert(s@.subrange(a as int, end as int).drop_first() =~= s@.subrange(a + 1, end as int));
        a = a + 1;
    }
    assert(trim_start(field) == s@.subrange(a as int, end as int));
    let ghost started = s@.subrange(a as int, end as int);
    let mut b = end;
    while b > a && is_white_space_char(s[b - 1])
        invariant
            a <= b <= end <= s@.len(),
            trim_end(started) == trim_end(s@.subrange(a as int, b as int)),
        decreases b - a,
    {
        assert(s@.subrange(a as int, b as int).drop_last() =~= s@.subrange(a as int, b - 1));
        b = b - 1;
    }
    let ghost trimmed = s@.subrange(a as int, b as int);
    assert(trim_end(started) == trimmed);
    let mut out: Vec<char> = Vec::new();
    let mut k = a;
    assert(s@.subrange(a as int, a as int) =~= Seq::<char>::empty());
    while k < b
        invariant
            a <= k <= b <= s@.len(),
            out@ == without_quotes(s@.subrange(a as int, k as int)),
        decreases b - k,
    {
        assert(s@.subrange(a as int, k + 1).drop_last() =~= s@.subrange(a as int, k as int));
        if s[k] != '"' {
            out.push(s[k]);
        }
        k = k + 1;
    }
    if out.len() > 0 {
        Some(string_of(out.as_slice()))
    } else {
        None
    }
}

/// The name under which a download is saved: the name the user gave; else
/// the one that the `Content-Disposition` header gives; else the one that the
/// URL gives.
pub open spec fn spec_download_target(
    to: Option<Seq<char>>,
    disposition: Option<Seq<char>>,
    url: Seq<char>,
) -> Seq<char> {
    match to {
        Some(t) => t,
        None => match disposition {
            Some(d) => match spec_file_name_from_content_disposition(d) {
                Some(n) => n,
                None => spec_file_name_from_url(url),
            },
            None => spec_file_name_from_url(url),
        },
    }
}

/// Chooses the file that a download of `url` is written to. `disposition` is
/// the `Content-Disposition` header of the response, when it has one that is
/// readable text.
pub fn download_target(to: Option<&str>, disposition: Option<&str>, url: &str) -> (name: String)
    ensures
        name@ == spec_download_target(
            match to {
                Some(t) => Some(t@),
                None => None,
            },
            match disposition {
                Some(d) => Some(d@),
                None => None,
            },
            url@,
        ),
{
    match to {
        Some(t) => t.to_owned(),
        None => {
            let from_header = match disposition {
                Some(d) => file_name_from_content_disposition(d),
                None => None,
            };
            match from_header {
                Some(n) => n,
                None => file_name_from_url(url),
            }
        },
    }
}

/// `c` is one of the digits `0` to `9`.
pub open spec fn is_digit(c: char) -> bool {
    '0' <= c <= '9'
}

/// The number that the decimal digits `s` spell.
pub open spec fn digits_value(s: Seq<char>) -> nat
    decreases s.len(),
{
    if s.len() == 0 {
        0
    } else {
        digits_value(s.drop_last()) * 10 + ((s.last() as u32) - ('0' as u32)) as nat
    }
}

/// Every character of `s` is a digit.
pub open spec fn all_digits(s: Seq<char>) -> bool {
    forall|i: int| 0 <= i < s.len() ==> is_digit(#[trigger] s[i])
}

/// `s` without one leading `+`.
pub open spec fn unsigned_body(s: Seq<char>) -> Seq<char> {
    if s.len() > 0 && s[0] == '+' {
        s.drop_first()
    } else {
        s
    }
}

/// The value of a decimal `u64` written as an optional `+` followed by one or
/// more digits, the way `u64::from_str` reads it; `None` for any other text
/// and for values above `u64::MAX`.
pub open spec fn spec_parse_u64(s: Seq<char>) -> Option<u64> {
    let body = unsigned_body(s);
    if body.len() > 0 && all_digits(body) && digits_value(body) <= u64::MAX {
        Some(digits_value(body) as u64)
    } else {
        None
    }
}

proof fn lemma_digits_value_grows(s: Seq<char>, k: int)
    requires
        0 <= k <= s.len(),
        forall|i: int| 0 <= i < s.len() ==> is_digit(#[trigger] s[i]),
    ensures
        digits_value(s.take(k)) <= digits_value(s),
    decreases s.len() - k,
{
    if k < s.len() {
        lemma_digits_value_grows(s, k + 1);
        assert(s.take(k + 1).drop_last() =~= s.take(k));
        assert(is_digit(s[k]));
    } else {
        assert(s.take(k) =~= s);
    }
}

/// Reads a `Content-Length` header value.
pub fn parse_content_length(value: &str) -> (r: Option<u64>)
    ensures
        r == spec_parse_u64(value@),
{
    let s = chars_of(value);
    let n = s.len();
    let mut k: usize = 0;
    if n > 0 && s[0] == '+' {
        k = 1;
    }
    let start = k;
    let ghost body = unsigned_body(value@);
    assert(body =~= s@.subrange(start as int, n as int));
    if start == n {
        return None;
    }
    let mut v: u64 = 0;
    let mut overflowed = false;
    assert(body.take(0) =~= Seq::<char>::empty());
    while k < n
        invariant
            start <= k <= n,
            n == s@.len(),
            body == s@.subrange(start as int, n as int),
            body == unsigned_body(value@),
            forall|i: int| 0 <= i < k - start ==> is_digit(#[trigger] body[i]),
            !overflowed ==> v == digits_value(body.take(k - start)),
            overflowed ==> digits_value(body.take(k - start)) > u64::MAX,
        decreases n - k,
    {
        let c = s[k];
        if !('0' <= c && c <= '9') {
            assert(body[k - start] == c);
            assert(!is_digit(body[k - start]));
            assert(!all_digits(body));
            return None;
        }
        let ghost prev = body.take(k - start);
        assert(body.take(k - start + 1).drop_last() =~= prev);
        assert(body.take(k - start + 1).last() == c);
        let d = (c as u32 - '0' as u32) as u64;
        if !overflowed {
            if v > (u64::MAX - d) / 10 {
                overflowed = true;
                assert(v * 10 + d > u64::MAX) by (nonlinear_arith)
                    requires
                        v > (u64::MAX - d) / 10,
                        d <= 9,
                ;
            } else {
                assert(v * 10 + d <= u64::MAX) by (nonlinear_arith)
                    requires
                        v <= (u64::MAX - d) / 10,
                        d <= 9,
                ;
                v = v * 10 + d;
            }
        } else {
            assert(digits_value(body.take(k - start + 1)) >= digits_value(prev) * 10);
        }
        k = k + 1;
    }
    assert(body.take(n - start) =~= body);
    if overflowed {
        None
    } else {
        Some(v)
    }
}

/// The message shown once a download has been written.
pub open spec fn spec_download_finished_message(url: Seq<char>, file: Seq<char>) -> Seq<char> {
    seq!['D', 'o', 'w', 'n', 'l', 'o', 'a', 'd', 'e', 'd', ' '] + url + seq![' ', 't', 'o', ' '] + file
}

/// The message shown once the download of `url` has been written to `file`.
pub fn download_finished_message(url: &str, file: &str) -> (m: String)
    ensures
        m@ == spec_download_finished_message(url@, file@),
{
    let mut out: Vec<char> = Vec::new();
    push_str(&mut out, "Downloaded ");
    push_str(&mut out, url);
    push_str(&mut out, " to ");
    push_str(&mut out, file);
    proof {
        reveal_strlit("Downloaded ");
        reveal_strlit(" to ");
    }
    string_of(out.as_slice())
}

proof fn lemma_without_quotes_has_none(s: Seq<char>)
    ensures
        forall|i: int| 0 <= i < without_quotes(s).len() ==> without_quotes(s)[i] != '"',
    decreases s.len(),
{
    if s.len() > 0 {
        lemma_without_quotes_has_none(s.drop_last());
        let r = without_quotes(s.drop_last());
        if s.last() != '"' {
            assert forall|i: int| 0 <= i < r.len() + 1 implies #[trigger] r.push(s.last())[i]
                != '"' by {
                if i < r.len() {
                    assert(r.push(s.last())[i] == r[i]);
                }
            }
        }
    }
}

/// A file name taken from a `Content-Disposition` value is never empty and
/// holds no quotation mark.
pub proof fn law_disposition_file_name_is_unquoted(value: Seq<char>)
    ensures
        spec_file_name_from_content_disposition(value) matches Some(name) ==> name.len() > 0
            && forall|i: int| 0 <= i < name.len() ==> name[i] != '"',
{
    if let Some(field) = filename_field(value) {
        lemma_without_quotes_has_none(trim_end(trim_start(field)));
    }
}

/// The name a download is saved under: the name the user gave, when there is
/// one; otherwise the file name of the `Content-Disposition` header, whatever
/// the disposition type, when it yields one; otherwise the name the URL gives.
pub proof fn law_download_name_precedence(
    to: Option<Seq<char>>,
    disposition: Option<Seq<char>>,
    url: Seq<char>,
)
    ensures
        to matches Some(t) ==> spec_download_target(to, disposition, url) == t,
        to is None ==> (disposition matches Some(d) ==> (spec_file_name_from_content_disposition(
            d,
        ) matches Some(n) ==> spec_download_target(to, disposition, url) == n)),
        to is None && (disposition is None || spec_file_name_from_content_disposition(
            disposition->0,
        ) is None) ==> spec_download_target(to, disposition, url) == spec_file_name_from_url(url),
{
}

proof fn lemma_first_key_in_range(s: Seq<char>, from: int)
    ensures
        first_key_from(s, from) matches Some(k) ==> from <= k && k + 9 <= s.len(),
    decreases s.len() - from,
{
    if !(from < 0 || from + 9 > s.len()) && !key_at(s, from) {
        lemma_first_key_in_range(s, from + 1);
    }
}

proof fn lemma_field_end_bounds(s: Seq<char>, start: int)
    requires
        0 <= start <= s.len(),
    ensures
        start <= field_end(s, start) <= s.len(),
{
    lemma_value_end_bounds(s, start, false);
    lemma_first_key_in_range(s, start);
}

proof fn lemma_key_at_shift(p: Seq<char>, t: Seq<char>, m: int)
    requires
        0 <= m,
    ensures
        key_at(p + t, p.len() + m) == key_at(t, m),
{
    if m + 9 <= t.len() {
        assert((p + t).subrange(p.len() + m, p.len() + m + 9) =~= t.subrange(m, m + 9));
    }
}

proof fn lemma_first_key_shift(p: Seq<char>, t: Seq<char>, m: int)
    requires
        0 <= m,
    ensures
        first_key_from(p + t, p.len() + m) == match first_key_from(t, m) {
            Some(k) => Some(p.len() + k),
            None => None::<int>,
        },
    decreases t.len() - m,
{
    lemma_key_at_shift(p, t, m);
    if m + 9 <= t.len() && !key_at(t, m) {
        lemma_first_key_shift(p, t, m + 1);
    }
}

proof fn lemma_first_key_skips_prefix(p: Seq<char>, t: Seq<char>, from: int)
    requires
        0 <= from <= p.len(),
        forall|k: int| 0 <= k < p.len() ==> !key_at(p + t, k),
    ensures
        first_key_from(p + t, from) == first_key_from(p + t, p.len() as int),
    decreases p.len() - from,
{
    if from < p.len() && from + 9 <= (p + t).len() {
        assert(!key_at(p + t, from));
        lemma_first_key_skips_prefix(p, t, from + 1);
    }
}

proof fn lemma_value_end_shift(p: Seq<char>, t: Seq<char>, i: int, quoted: bool)
    requires
        0 <= i,
    ensures
        value_end_from(p + t, p.len() + i, quoted) == p.len() + value_end_from(t, i, quoted),
    decreases t.len() - i,
{
    if i < t.len() {
        assert((p + t)[p.len() + i] == t[i]);
        lemma_value_end_shift(p, t, i + 1, !quoted);
        lemma_value_end_shift(p, t, i + 1, quoted);
    }
}

/// What comes before the first `filename=` of a `Content-Disposition` value
/// (the disposition type, such as `attachment` or `inline`, and any other
/// parameters) does not change the file name it gives.
pub proof fn law_disposition_type_is_ignored(p: Seq<char>, t: Seq<char>)
    requires
        forall|k: int| 0 <= k < p.len() ==> !key_at(p + t, k),
    ensures
        spec_file_name_from_content_disposition(p + t) == spec_file_name_from_content_disposition(
            t,
        ),
{
    let s = p + t;
    lemma_first_key_skips_prefix(p, t, 0);
    lemma_first_key_shift(p, t, 0);
    if let Some(i) = first_key_from(t, 0) {
        assert(first_key_from(s, 0) == Some(p.len() + i));
        lemma_first_key_in_range(t, 0);
        lemma_first_key_shift(p, t, i + 9);
        lemma_value_end_shift(p, t, i + 9, false);
        let e = field_end(t, i + 9);
        assert(field_end(s, p.len() + i + 9) == p.len() + e);
        lemma_field_end_bounds(t, i + 9);
        assert(s.subrange(p.len() + i + 9, p.len() + e) =~= t.subrange(i + 9, e));
    }
}

} // verus!
