//! The per-connection protocol logic: parsing the request line and the
//! header block, and deciding how many body bytes to read. The caller
//! reads lines off the socket (trimmed of trailing whitespace, stopping
//! at the first empty line) and hands them in.

use vstd::prelude::*;
use vstd::string::StrSliceExecFns;
use crate::request::Request;
use crate::strmap::StrMap;
use crate::strmap::keys_distinct;
use crate::strmap::lemma_insert_distinct;
use crate::strmap::lookup;
use crate::strmap::spec_insert;
use crate::text::parse_usize;
use crate::text::spec_parse_usize;
use crate::text::split_ws;
use crate::text::substr_string;
use crate::text::ws_tokens;

verus! {

/// The `i`-th whitespace-separated token, or the empty string.
pub open spec fn token_or_empty(toks: Seq<Seq<char>>, i: int) -> Seq<char> {
    if 0 <= i < toks.len() {
        toks[i]
    } else {
        Seq::empty()
    }
}

/// Method of a head: the request line's first token.
pub open spec fn spec_head_method(lines: Seq<Seq<char>>) -> Seq<char> {
    if lines.len() == 0 {
        Seq::empty()
    } else {
        token_or_empty(ws_tokens(lines[0]), 0)
    }
}

/// URL of a head: the request line's second token.
pub open spec fn spec_head_url(lines: Seq<Seq<char>>) -> Seq<char> {
    if lines.len() == 0 {
        Seq::empty()
    } else {
        token_or_empty(ws_tokens(lines[0]), 1)
    }
}

/// Position of the first `": "` separator in a header line.
pub open spec fn find_sep(s: Seq<char>) -> Option<int>
    decreases s.len(),
{
    if s.len() < 2 {
        None
    } else if s[0] == ':' && s[1] == ' ' {
        Some(0)
    } else {
        match find_sep(s.skip(1)) {
            None => None,
            Some(j) => Some(j + 1),
        }
    }
}

pub open spec fn sep_at(s: Seq<char>, i: int) -> bool {
    0 <= i && i + 1 < s.len() && s[i] == ':' && s[i + 1] == ' '
}

pub proof fn lemma_find_sep_is_first(s: Seq<char>)
    ensures
        match find_sep(s) {
            Some(i) => sep_at(s, i) && forall|j: int| 0 <= j < i ==> !sep_at(s, j),
            None => forall|j: int| !sep_at(s, j),
        },
    decreases s.len(),
{
    if s.len() >= 2 && !(s[0] == ':' && s[1] == ' ') {
        lemma_find_sep_is_first(s.skip(1));
        match find_sep(s.skip(1)) {
            Some(j) => {
                assert(s.skip(1)[j] == s[j + 1]);
                assert(s.skip(1)[j + 1] == s[j + 2]);
                assert forall|m: int| 0 <= m < j + 1 implies !sep_at(s, m) by {
                    if m > 0 {
                        assert(s.skip(1)[m - 1] == s[m]);
                        assert(s.skip(1)[m] == s[m + 1]);
                        assert(!sep_at(s.skip(1), m - 1));
                    }
                }
            },
            None => {
                assert forall|m: int| !(#[trigger] sep_at(s, m)) by {
                    if m > 0 {
                        assert(!sep_at(s.skip(1), m - 1));
                        if sep_at(s, m) {
                            assert(s.skip(1)[m - 1] == s[m]);
                            assert(s.skip(1)[m] == s[m + 1]);
                        }
                    }
                }
            },
        }
    } else if s.len() < 2 {
        assert forall|m: int| !(#[trigger] sep_at(s, m)) by {}
    }
}

/// A header line's name/value pair: split at the first `": "`, or nothing
/// when the line has no separator.
pub open spec fn header_of_line(line: Seq<char>) -> Option<(Seq<char>, Seq<char>)> {
    match find_sep(line) {
        None => None,
        Some(i) => Some((line.take(i), line.skip(i + 2))),
    }
}

/// The header map accumulated over the lines after the request line;
/// malformed lines are dropped, duplicate names keep the last value.
pub open spec fn headers_fold(hlines: Seq<Seq<char>>) -> Seq<(Seq<char>, Seq<char>)>
    decreases hlines.len(),
{
    if hlines.len() == 0 {
        Seq::empty()
    } else {
        let prev = headers_fold(hlines.drop_last());
        match header_of_line(hlines.last()) {
            None => prev,
            Some(kv) => spec_insert(prev, kv.0, kv.1),
        }
    }
}

/// The headers of a head: folded over every line after the first.
pub open spec fn spec_head_headers(lines: Seq<Seq<char>>) -> Seq<(Seq<char>, Seq<char>)> {
    if lines.len() == 0 {
        Seq::empty()
    } else {
        headers_fold(lines.skip(1))
    }
}

/// Split one header line at its first `": "`.
pub fn parse_header_line(line: &str) -> (r: Option<(String, String)>)
    ensures
        match r {
            Some(kv) => header_of_line(line@) == Some((kv.0@, kv.1@)),
            None => header_of_line(line@) is None,
        },
{
    proof {
        lemma_find_sep_is_first(line@);
    }
    let len = line.unicode_len();
    if len < 2 {
        return None;
    }
    let mut i: usize = 0;
    while i + 1 < len
        invariant
            len == line@.len(),
            i + 1 <= len,
            forall|j: int| 0 <= j < i ==> !sep_at(line@, j),
        decreases len - i,
    {
        if line.get_char(i) == ':' && line.get_char(i + 1) == ' ' {
            proof {
                lemma_find_sep_is_first(line@);
                assert(sep_at(line@, i as int));
                match find_sep(line@) {
                    Some(k) => {
                        assert(k <= i);
                        assert(k >= i);
                    },
                    None => {
                        assert(sep_at(line@, i as int));
                    },
                }
            }
            return Some((substr_string(line, 0, i), substr_string(line, i + 2, len)));
        }
        i += 1;
    }
    proof {
        assert forall|j: int| !(#[trigger] sep_at(line@, j)) by {}
        if find_sep(line@) is Some {
            let k = find_sep(line@).unwrap();
            assert(sep_at(line@, k));
        }
    }
    None
}

/// Parse the request line and header block into a request with an empty
/// body. A missing request line leaves every field empty; malformed
/// header lines are silently dropped.
pub fn parse_request_head(lines: &Vec<String>) -> (r: Request)
    ensures
        r.method@ == spec_head_method(lines.deep_view()),
        r.url@ == spec_head_url(lines.deep_view()),
        r.headers@ == spec_head_headers(lines.deep_view()),
        r.body@ == Seq::<char>::empty(),
        keys_distinct(r.headers@),
{
    let ghost lv = lines.deep_view();
    let n = lines.len();
    if n == 0 {
        return Request::empty();
    }
    let toks = split_ws(lines[0].as_str());
    let method = if toks.len() > 0 {
        toks[0].clone()
    } else {
        String::new()
    };
    let url = if toks.len() > 1 {
        toks[1].clone()
    } else {
        String::new()
    };
    proof {
        assert(lines@[0].deep_view() == lv[0]);
        assert(method@ == spec_head_method(lv));
        assert(url@ == spec_head_url(lv));
    }
    let mut headers = StrMap::new();
    let mut i: usize = 1;
    proof {
        assert(lv.skip(1).take(0) =~= Seq::<Seq<char>>::empty());
        assert(headers@ =~= headers_fold(lv.skip(1).take(0)));
    }
    while i < n
        invariant
            n == lv.len(),
            n == lines@.len(),
            lv == lines.deep_view(),
            1 <= i <= n,
            headers@ == headers_fold(lv.skip(1).take(i - 1)),
            keys_distinct(headers@),
        decreases n - i,
    {
        match parse_header_line(lines[i].as_str()) {
            Some(kv) => {
                proof {
                    lemma_insert_distinct(headers@, kv.0@, kv.1@);
                }
                let (k, v) = kv;
                headers.insert(k, v);
            },
            None => {},
        }
        proof {
            let h = lv.skip(1);
            assert(h.take(i as int).drop_last() =~= h.take(i - 1));
            assert(h.take(i as int).last() == h[i - 1]);
            assert(h[i - 1] == lv[i as int]);
            assert(lines@[i as int].deep_view() == lv[i as int]);
        }
        i += 1;
    }
    proof {
        assert(lv.skip(1).take(n - 1) =~= lv.skip(1));
    }
    Request { method, url, headers, body: String::new() }
}

/// What `Content-Length` asks for: the parsed value of that header, or
/// nothing when the header is absent or does not parse as a `usize`.
pub open spec fn spec_content_length(h: Seq<(Seq<char>, Seq<char>)>) -> Option<usize> {
    match lookup(h, "Content-Length"@) {
        None => None,
        Some(v) => spec_parse_usize(v),
    }
}

/// How many body bytes to read for a request, per its headers. Absence of
/// a usable `Content-Length` means no body is read at all.
pub fn content_length(headers: &StrMap) -> (r: Option<usize>)
    ensures
        r == spec_content_length(headers@),
{
    match headers.get("Content-Length") {
        None => None,
        Some(v) => parse_usize(v),
    }
}

} // verus!
