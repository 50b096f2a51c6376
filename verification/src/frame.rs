//! Re-parsing a serialized response frame: a specification-level parser
//! for the wire format `Response::to_bytes` emits, and the proof that
//! parsing a serialized response recovers its status code, its body, and
//! every header it set.

use vstd::prelude::*;
use crate::conn::find_sep;
use crate::conn::header_of_line;
use crate::conn::lemma_find_sep_is_first;
use crate::conn::sep_at;
use crate::response::Response;
use crate::response::body_byte_len;
use crate::response::header_block;
use crate::response::header_line;
use crate::response::spec_serialized;
use crate::response::spec_status_text;
use crate::strmap::find_key;
use crate::strmap::keys_distinct;
use crate::strmap::lemma_find_key_is_first;
use crate::strmap::lemma_lookup_at_index;
use crate::strmap::lookup;
use crate::strmap::spec_insert;
use crate::text::all_digits;
use crate::text::dec_of;
use crate::text::digit_char_of;
use crate::text::digit_val;
use crate::text::digits_val;
use crate::text::find_char;
use crate::text::is_digit_char;
use crate::text::lemma_find_char_is_first;

verus! {

/// A CRLF line break at position `i`.
pub open spec fn crlf_at(s: Seq<char>, i: int) -> bool {
    0 <= i && i + 1 < s.len() && s[i] == '\r' && s[i + 1] == '\n'
}

/// Position of the first CRLF.
pub open spec fn find_crlf(s: Seq<char>) -> Option<int>
    decreases s.len(),
{
    if s.len() < 2 {
        None
    } else if s[0] == '\r' && s[1] == '\n' {
        Some(0)
    } else {
        match find_crlf(s.skip(1)) {
            None => None,
            Some(j) => Some(j + 1),
        }
    }
}

pub proof fn lemma_find_crlf_is_first(s: Seq<char>)
    ensures
        match find_crlf(s) {
            Some(i) => crlf_at(s, i) && forall|j: int| 0 <= j < i ==> !crlf_at(s, j),
            None => forall|j: int| !crlf_at(s, j),
        },
    decreases s.len(),
{
    if s.len() >= 2 && !(s[0] == '\r' && s[1] == '\n') {
        lemma_find_crlf_is_first(s.skip(1));
        match find_crlf(s.skip(1)) {
            Some(j) => {
                assert(s.skip(1)[j] == s[j + 1]);
                assert(s.skip(1)[j + 1] == s[j + 2]);
                assert forall|m: int| 0 <= m < j + 1 implies !crlf_at(s, m) by {
                    if m > 0 {
                        assert(s.skip(1)[m - 1] == s[m]);
                        assert(s.skip(1)[m] == s[m + 1]);
                        assert(!crlf_at(s.skip(1), m - 1));
                    }
                }
            },
            None => {
                assert forall|m: int| !(#[trigger] crlf_at(s, m)) by {
                    if m > 0 {
                        assert(!crlf_at(s.skip(1), m - 1));
                        if crlf_at(s, m) {
                            assert(s.skip(1)[m - 1] == s[m]);
                            assert(s.skip(1)[m] == s[m + 1]);
                        }
                    }
                }
            },
        }
    } else if s.len() < 2 {
        assert forall|m: int| !(#[trigger] crlf_at(s, m)) by {}
    }
}

/// The first CRLF is at `i` when a CRLF stands there and none earlier.
pub proof fn lemma_find_crlf_at(s: Seq<char>, i: int)
    requires
        crlf_at(s, i),
        forall|j: int| 0 <= j < i ==> !crlf_at(s, j),
    ensures
        find_crlf(s) == Some(i),
{
    lemma_find_crlf_is_first(s);
    match find_crlf(s) {
        Some(k) => {
            assert(k <= i);
            assert(k >= i);
        },
        None => {
            assert(crlf_at(s, i));
        },
    }
}

/// The status code of a status line `HTTP/1.1 <digits> <reason>`.
pub open spec fn parse_status(line: Seq<char>) -> Option<nat> {
    if line.len() < 9 || line.take(9) != "HTTP/1.1 "@ {
        None
    } else {
        let after = line.skip(9);
        match find_char(after, ' ') {
            None => None,
            Some(j) => if j > 0 && all_digits(after.take(j)) {
                Some(digits_val(after.take(j)))
            } else {
                None
            },
        }
    }
}

/// Parse header lines until the blank line, folding each `name: value`
/// pair into `acc` last-write-wins; the rest of the input is the body.
pub open spec fn parse_headers(s: Seq<char>, acc: Seq<(Seq<char>, Seq<char>)>) -> Option<
    (Seq<(Seq<char>, Seq<char>)>, Seq<char>),
>
    decreases s.len(),
    via parse_headers_decreases
{
    if s.len() >= 2 && s[0] == '\r' && s[1] == '\n' {
        Some((acc, s.skip(2)))
    } else {
        match find_crlf(s) {
            None => None,
            Some(i) => {
                let line = s.take(i);
                let rest = s.skip(i + 2);
                match header_of_line(line) {
                    None => parse_headers(rest, acc),
                    Some(kv) => parse_headers(rest, spec_insert(acc, kv.0, kv.1)),
                }
            },
        }
    }
}

#[via_fn]
proof fn parse_headers_decreases(s: Seq<char>, acc: Seq<(Seq<char>, Seq<char>)>) {
    lemma_find_crlf_is_first(s);
}

/// Parse a whole response frame: status line, header block, body.
pub open spec fn parse_frame(s: Seq<char>) -> Option<
    (nat, Seq<(Seq<char>, Seq<char>)>, Seq<char>),
> {
    match find_crlf(s) {
        None => None,
        Some(i) => match parse_status(s.take(i)) {
            None => None,
            Some(code) => match parse_headers(s.skip(i + 2), Seq::empty()) {
                None => None,
                Some(hb) => Some((code, hb.0, hb.1)),
            },
        },
    }
}

/// A header name that survives the wire format: non-empty, no colon, no
/// line break.
pub open spec fn clean_name(k: Seq<char>) -> bool {
    k.len() > 0 && forall|i: int|
        0 <= i < k.len() ==> #[trigger] k[i] != ':' && k[i] != '\r' && k[i] != '\n'
}

/// A header value that survives the wire format: no line break.
pub open spec fn clean_value(v: Seq<char>) -> bool {
    forall|i: int| 0 <= i < v.len() ==> #[trigger] v[i] != '\r' && v[i] != '\n'
}

/// Headers that serialize unambiguously: distinct keys, clean names and
/// values.
pub open spec fn wf_headers(hs: Seq<(Seq<char>, Seq<char>)>) -> bool {
    &&& keys_distinct(hs)
    &&& forall|i: int| 0 <= i < hs.len() ==> clean_name((#[trigger] hs[i]).0) && clean_value(
        hs[i].1,
    )
}

/// Every digit of a decimal representation is a digit character.
pub proof fn lemma_dec_of_digits(n: nat)
    ensures
        dec_of(n).len() >= 1,
        all_digits(dec_of(n)),
    decreases n,
{
    if n >= 10 {
        lemma_dec_of_digits(n / 10);
        assert forall|i: int| 0 <= i < dec_of(n).len() implies is_digit_char(
            #[trigger] dec_of(n)[i],
        ) by {
            if i < dec_of(n / 10).len() {
                assert(dec_of(n)[i] == dec_of(n / 10)[i]);
            }
        }
    }
}

/// Parsing a decimal representation recovers the number.
pub proof fn lemma_digits_val_dec_of(n: nat)
    ensures
        digits_val(dec_of(n)) == n,
    decreases n,
{
    if n < 10 {
        assert(dec_of(n).drop_last() =~= Seq::<char>::empty());
        assert(digit_char_of(n) as nat == 48 + n);
        assert(digit_val(digit_char_of(n)) == n);
        assert(dec_of(n).len() == 1);
        assert(dec_of(n).last() == digit_char_of(n));
        assert(digits_val(dec_of(n)) == digits_val(dec_of(n).drop_last()) * 10 + digit_val(
            dec_of(n).last(),
        ));
        assert(digits_val(Seq::<char>::empty()) == 0);
    } else {
        lemma_digits_val_dec_of(n / 10);
        assert(dec_of(n).drop_last() =~= dec_of(n / 10));
        assert(dec_of(n).last() == digit_char_of(n % 10));
        assert(digit_char_of(n % 10) as nat == 48 + n % 10);
        assert(digit_val(digit_char_of(n % 10)) == n % 10);
        vstd::arithmetic::div_mod::lemma_fundamental_div_mod(n as int, 10);
        assert(digits_val(dec_of(n)) == digits_val(dec_of(n / 10)) * 10 + digit_val(
            digit_char_of(n % 10),
        ));
        assert(digits_val(dec_of(n)) == n);
    }
}

/// No reason phrase contains a line break.
pub proof fn lemma_status_text_clean(code: u16)
    ensures
        clean_value(spec_status_text(code)),
{
    reveal_strlit("OK");
    reveal_strlit("Created");
    reveal_strlit("No Content");
    reveal_strlit("Bad Request");
    reveal_strlit("Unauthorized");
    reveal_strlit("Forbidden");
    reveal_strlit("Not Found");
    reveal_strlit("Method Not Allowed");
    reveal_strlit("Internal Server Error");
    reveal_strlit("Not Implemented");
    reveal_strlit("Bad Gateway");
    reveal_strlit("Service Unavailable");
    reveal_strlit("Unknown");
}

/// Inserting the first `n` entries one by one, front to back.
pub open spec fn acc_insert(
    acc: Seq<(Seq<char>, Seq<char>)>,
    entries: Seq<(Seq<char>, Seq<char>)>,
) -> Seq<(Seq<char>, Seq<char>)>
    decreases entries.len(),
{
    if entries.len() == 0 {
        acc
    } else {
        acc_insert(spec_insert(acc, entries[0].0, entries[0].1), entries.skip(1))
    }
}

/// Folding entries whose keys are fresh and distinct appends them in
/// order.
pub proof fn lemma_acc_insert_append(
    acc: Seq<(Seq<char>, Seq<char>)>,
    entries: Seq<(Seq<char>, Seq<char>)>,
)
    requires
        keys_distinct(acc + entries),
    ensures
        acc_insert(acc, entries) == acc + entries,
    decreases entries.len(),
{
    if entries.len() == 0 {
        assert(acc + entries =~= acc);
    } else {
        let e = entries[0];
        assert((acc + entries)[acc.len() as int] == e);
        lemma_find_key_is_first(acc, e.0);
        match find_key(acc, e.0) {
            Some(i) => {
                assert((acc + entries)[i] == acc[i]);
                assert(false);
            },
            None => {},
        }
        assert(spec_insert(acc, e.0, e.1) == acc.push(e));
        assert(acc.push(e) + entries.skip(1) =~= acc + entries);
        lemma_acc_insert_append(acc.push(e), entries.skip(1));
    }
}

/// One clean header line at the front of the input parses to its pair.
pub proof fn lemma_header_line_parses(
    k: Seq<char>,
    v: Seq<char>,
    tail: Seq<char>,
    acc: Seq<(Seq<char>, Seq<char>)>,
)
    requires
        clean_name(k),
        clean_value(v),
    ensures
        parse_headers(header_line(k, v) + tail, acc) == parse_headers(
            tail,
            spec_insert(acc, k, v),
        ),
{
    reveal_strlit(": ");
    reveal_strlit("\r\n");
    let s = header_line(k, v) + tail;
    let p = k.len() + 2 + v.len();
    assert(s[0] == k[0]);
    assert(crlf_at(s, p as int));
    assert forall|j: int| 0 <= j < p implies !crlf_at(s, j) by {
        if j < k.len() {
            assert(s[j] == k[j]);
        } else if j == k.len() {
            assert(s[j] == ':');
        } else if j == k.len() + 1 {
            assert(s[j] == ' ');
        } else {
            assert(s[j] == v[j - k.len() - 2]);
        }
    }
    lemma_find_crlf_at(s, p as int);
    let line = s.take(p as int);
    assert(line =~= k + ": "@ + v);
    assert(sep_at(line, k.len() as int));
    assert forall|j: int| 0 <= j < k.len() implies !sep_at(line, j) by {
        assert(line[j] == k[j]);
    }
    lemma_find_sep_is_first(line);
    match find_sep(line) {
        Some(m) => {
            assert(m <= k.len());
            assert(m >= k.len());
            assert(line.take(m) =~= k);
            assert(line.skip(m + 2) =~= v);
        },
        None => {
            assert(sep_at(line, k.len() as int));
        },
    }
    assert(header_of_line(line) == Some((k, v)));
    assert(s.skip((p + 2) as int) =~= tail);
}

/// A serialized header block parses to its entries folded into `acc`.
pub proof fn lemma_block_parses(
    entries: Seq<(Seq<char>, Seq<char>)>,
    tail: Seq<char>,
    acc: Seq<(Seq<char>, Seq<char>)>,
)
    requires
        forall|i: int| 0 <= i < entries.len() ==> clean_name((#[trigger] entries[i]).0)
            && clean_value(entries[i].1),
    ensures
        parse_headers(header_block(entries) + tail, acc) == parse_headers(
            tail,
            acc_insert(acc, entries),
        ),
    decreases entries.len(),
{
    if entries.len() == 0 {
        assert(header_block(entries) + tail =~= tail);
    } else {
        let e = entries[0];
        lemma_block_front(entries);
        assert(header_block(entries) + tail =~= header_line(e.0, e.1) + (header_block(
            entries.skip(1),
        ) + tail));
        lemma_header_line_parses(e.0, e.1, header_block(entries.skip(1)) + tail, acc);
        lemma_block_parses(entries.skip(1), tail, spec_insert(acc, e.0, e.1));
    }
}

/// A non-empty header block is its first line followed by the rest.
proof fn lemma_block_front(entries: Seq<(Seq<char>, Seq<char>)>)
    requires
        entries.len() > 0,
    ensures
        header_block(entries) == header_line(entries[0].0, entries[0].1) + header_block(
            entries.skip(1),
        ),
    decreases entries.len(),
{
    if entries.len() == 1 {
        assert(entries.drop_last() =~= Seq::<(Seq<char>, Seq<char>)>::empty());
        assert(entries.skip(1) =~= Seq::<(Seq<char>, Seq<char>)>::empty());
        assert(header_block(entries) =~= header_line(entries[0].0, entries[0].1) + header_block(
            entries.skip(1),
        ));
    } else {
        let d = entries.drop_last();
        lemma_block_front(d);
        assert(d[0] == entries[0]);
        assert(entries.skip(1).drop_last() =~= d.skip(1));
        assert(entries.skip(1).last() == entries.last());
        assert(header_block(entries.skip(1)) == header_block(d.skip(1)) + header_line(
            entries.last().0,
            entries.last().1,
        ));
        assert(header_block(entries) =~= header_line(entries[0].0, entries[0].1) + header_block(
            entries.skip(1),
        ));
    }
}

/// Appending an entry with a different key does not change a key's
/// binding.
proof fn lemma_lookup_push_other(
    s: Seq<(Seq<char>, Seq<char>)>,
    e: (Seq<char>, Seq<char>),
    k: Seq<char>,
)
    requires
        e.0 != k,
    ensures
        lookup(s.push(e), k) == lookup(s, k),
{
    assert(s.push(e).last() == e);
    assert(s.push(e).drop_last() =~= s);
}

/// Round trip: re-parsing a serialized response recovers its status
/// code, its body bytes, and every header it explicitly set.
#[verifier::rlimit(100)]
pub proof fn lemma_serialize_reparse(r: Response)
    requires
        wf_headers(r.headers@),
    ensures
        ({
            let p = parse_frame(spec_serialized(r));
            &&& p is Some
            &&& p.unwrap().0 == r.status_code as nat
            &&& p.unwrap().2 == r.body@
            &&& forall|i: int| 0 <= i < r.headers@.len() ==> lookup(
                p.unwrap().1,
                (#[trigger] r.headers@[i]).0,
            ) == Some(r.headers@[i].1)
        }),
{
    reveal_strlit("HTTP/1.1 ");
    reveal_strlit(" ");
    reveal_strlit("\r\n");
    reveal_strlit(": ");
    reveal_strlit("Content-Length");
    reveal_strlit("Content-Length: ");
    reveal_strlit("Connection");
    reveal_strlit("close");
    reveal_strlit("Connection: close\r\n");
    let code = r.status_code as nat;
    let hs = r.headers@;
    let s = spec_serialized(r);
    let dec = dec_of(code);
    let reason = spec_status_text(r.status_code);
    let status_line = "HTTP/1.1 "@ + dec + " "@ + reason;
    lemma_dec_of_digits(code);
    lemma_digits_val_dec_of(code);
    lemma_status_text_clean(r.status_code);
    let cl_part = if lookup(hs, "Content-Length"@) is Some {
        Seq::<char>::empty()
    } else {
        "Content-Length: "@ + dec_of(body_byte_len(r.body@)) + "\r\n"@
    };
    let conn_part = if lookup(hs, "Connection"@) is Some {
        Seq::<char>::empty()
    } else {
        "Connection: close\r\n"@
    };
    let rest0 = header_block(hs) + (cl_part + (conn_part + ("\r\n"@ + r.body@)));
    assert(s =~= status_line + "\r\n"@ + rest0);
    // The status line holds no line break, so the first CRLF ends it.
    let p = status_line.len() as int;
    assert(crlf_at(s, p));
    assert forall|j: int| 0 <= j < p implies !crlf_at(s, j) by {
        if j < 9 {
            assert(s[j] == "HTTP/1.1 "@[j]);
        } else if j < 9 + dec.len() {
            assert(s[j] == dec[j - 9]);
            assert(is_digit_char(dec[j - 9]));
        } else if j == 9 + dec.len() {
            assert(s[j] == ' ');
        } else {
            assert(s[j] == reason[j - 9 - dec.len() - 1]);
        }
    }
    lemma_find_crlf_at(s, p);
    // The status line parses back to the status code.
    let line = s.take(p);
    assert(line =~= status_line);
    assert(line.take(9) =~= "HTTP/1.1 "@);
    let after = line.skip(9);
    assert(after =~= dec + " "@ + reason);
    assert(after[dec.len() as int] == ' ');
    assert forall|j: int| 0 <= j < dec.len() implies after[j] != ' ' by {
        assert(after[j] == dec[j]);
        assert(is_digit_char(dec[j]));
    }
    lemma_find_char_is_first(after, ' ');
    match find_char(after, ' ') {
        Some(m) => {
            assert(m <= dec.len());
            assert(m >= dec.len());
            assert(after.take(m) =~= dec);
        },
        None => {
            assert(after[dec.len() as int] == ' ');
        },
    }
    assert(parse_status(line) == Some(code));
    // The header block parses to the entries, in order.
    let tail1 = cl_part + (conn_part + ("\r\n"@ + r.body@));
    assert(s.skip(p + 2) =~= header_block(hs) + tail1);
    lemma_block_parses(hs, tail1, Seq::empty());
    assert(Seq::<(Seq<char>, Seq<char>)>::empty() + hs =~= hs);
    lemma_acc_insert_append(Seq::empty(), hs);
    // The defaulted headers, when present, are ordinary header lines.
    let acc1 = hs;
    let tail2 = conn_part + ("\r\n"@ + r.body@);
    let acc2 = if lookup(hs, "Content-Length"@) is Some {
        acc1
    } else {
        acc1.push(("Content-Length"@, dec_of(body_byte_len(r.body@))))
    };
    if lookup(hs, "Content-Length"@) is Some {
        assert(tail1 =~= tail2);
    } else {
        lemma_dec_of_digits(body_byte_len(r.body@));
        assert(clean_name("Content-Length"@));
        assert forall|i: int| 0 <= i < dec_of(body_byte_len(r.body@)).len() implies #[trigger]
            dec_of(body_byte_len(r.body@))[i] != '\r' && dec_of(body_byte_len(r.body@))[i]
            != '\n' by {
            assert(is_digit_char(dec_of(body_byte_len(r.body@))[i]));
        }
        assert(tail1 =~= header_line("Content-Length"@, dec_of(body_byte_len(r.body@))) + tail2);
        lemma_header_line_parses("Content-Length"@, dec_of(body_byte_len(r.body@)), tail2, acc1);
        crate::strmap::lemma_lookup_some_iff(hs, "Content-Length"@);
        lemma_find_key_is_first(acc1, "Content-Length"@);
        match find_key(acc1, "Content-Length"@) {
            Some(i) => {
                assert(false);
            },
            None => {},
        }
        assert(spec_insert(acc1, "Content-Length"@, dec_of(body_byte_len(r.body@))) == acc2);
    }
    let tail3 = "\r\n"@ + r.body@;
    let acc3 = if lookup(hs, "Connection"@) is Some {
        acc2
    } else {
        acc2.push(("Connection"@, "close"@))
    };
    if lookup(hs, "Connection"@) is Some {
        assert(tail2 =~= tail3);
    } else {
        assert(clean_name("Connection"@));
        assert(clean_value("close"@));
        assert(conn_part =~= header_line("Connection"@, "close"@));
        assert(tail2 =~= header_line("Connection"@, "close"@) + tail3);
        lemma_header_line_parses("Connection"@, "close"@, tail3, acc2);
        crate::strmap::lemma_lookup_some_iff(hs, "Connection"@);
        if lookup(hs, "Content-Length"@) is None {
            lemma_lookup_push_other(hs, ("Content-Length"@, dec_of(body_byte_len(r.body@))), "Connection"@);
        }
        crate::strmap::lemma_lookup_some_iff(acc2, "Connection"@);
        lemma_find_key_is_first(acc2, "Connection"@);
        match find_key(acc2, "Connection"@) {
            Some(i) => {
                assert(acc2[i].0 == "Connection"@);
                assert(false);
            },
            None => {},
        }
        assert(spec_insert(acc2, "Connection"@, "close"@) == acc3);
    }
    // The blank line ends the headers; the rest is the body.
    assert(tail3[0] == '\r' && tail3[1] == '\n');
    assert(parse_headers(tail3, acc3) == Some((acc3, tail3.skip(2))));
    assert(tail3.skip(2) =~= r.body@);
    assert(parse_frame(s) == Some((code, acc3, r.body@)));
    // Every explicitly set header keeps its binding in the parsed map.
    assert forall|i: int| 0 <= i < hs.len() implies lookup(acc3, (#[trigger] hs[i]).0) == Some(
        hs[i].1,
    ) by {
        lemma_lookup_at_index(hs, i);
        if lookup(hs, "Content-Length"@) is None {
            lemma_lookup_push_other(
                hs,
                ("Content-Length"@, dec_of(body_byte_len(r.body@))),
                hs[i].0,
            );
        }
        if lookup(hs, "Connection"@) is None {
            lemma_lookup_push_other(acc2, ("Connection"@, "close"@), hs[i].0);
        }
    }
}

} // verus!
