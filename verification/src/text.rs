//! Character-level string utilities: decimal formatting and parsing,
//! whitespace trimming, tokenizing, and delimiter splitting.

use vstd::prelude::*;
use vstd::string::StrSliceExecFns;
use vstd::string::StringExecFns;

verus! {

/// Decimal digit test.
pub open spec fn is_digit_char(c: char) -> bool {
    '0' <= c && c <= '9'
}

/// Numeric value of a decimal digit character.
pub open spec fn digit_val(c: char) -> nat
    recommends
        is_digit_char(c),
{
    (c as nat - '0' as nat) as nat
}

/// The character for a decimal digit.
pub open spec fn digit_char_of(d: nat) -> char
    recommends
        d < 10,
{
    (('0' as u8 + d) as u8) as char
}

/// Decimal representation of a natural number, most significant digit first.
pub open spec fn dec_of(n: nat) -> Seq<char>
    decreases n,
{
    if n < 10 {
        seq![digit_char_of(n)]
    } else {
        dec_of(n / 10) + seq![digit_char_of(n % 10)]
    }
}

/// Value of a digit string, most significant digit first.
pub open spec fn digits_val(s: Seq<char>) -> nat
    decreases s.len(),
{
    if s.len() == 0 {
        0
    } else {
        digits_val(s.drop_last()) * 10 + digit_val(s.last())
    }
}

pub open spec fn all_digits(s: Seq<char>) -> bool {
    forall|i: int| 0 <= i < s.len() ==> is_digit_char(#[trigger] s[i])
}

/// What `str::parse::<usize>` accepts: an optional leading `+`, then one or
/// more decimal digits whose value fits in `usize`.
pub open spec fn spec_parse_usize(s: Seq<char>) -> Option<usize> {
    let t = if s.len() > 0 && s[0] == '+' {
        s.skip(1)
    } else {
        s
    };
    if t.len() == 0 || !all_digits(t) {
        None
    } else if digits_val(t) > usize::MAX {
        None
    } else {
        Some(digits_val(t) as usize)
    }
}

/// One decimal digit as a string slice.
pub fn digit_str(d: u8) -> (r: &'static str)
    requires
        d < 10,
    ensures
        r@ =~= seq![digit_char_of(d as nat)],
{
    proof {
        reveal_strlit("0");
        reveal_strlit("1");
        reveal_strlit("2");
        reveal_strlit("3");
        reveal_strlit("4");
        reveal_strlit("5");
        reveal_strlit("6");
        reveal_strlit("7");
        reveal_strlit("8");
        reveal_strlit("9");
    }
    match d {
        0 => "0",
        1 => "1",
        2 => "2",
        3 => "3",
        4 => "4",
        5 => "5",
        6 => "6",
        7 => "7",
        8 => "8",
        _ => "9",
    }
}

/// Decimal formatting of a `usize`.
pub fn usize_to_string(n: usize) -> (r: String)
    ensures
        r@ == dec_of(n as nat),
    decreases n,
{
    if n < 10 {
        let r = String::from_str(digit_str(n as u8));
        proof {
            assert(r@ =~= dec_of(n as nat));
        }
        r
    } else {
        let mut r = usize_to_string(n / 10);
        r.append(digit_str((n % 10) as u8));
        proof {
            assert(r@ =~= dec_of(n as nat));
        }
        r
    }
}

/// A prefix of a digit string never exceeds the whole string's value.
proof fn lemma_digits_val_prefix(s: Seq<char>, k: int)
    requires
        0 <= k <= s.len(),
        all_digits(s),
    ensures
        digits_val(s.take(k)) <= digits_val(s),
    decreases s.len() - k,
{
    if k < s.len() {
        lemma_digits_val_prefix(s, k + 1);
        assert(s.take(k + 1).drop_last() =~= s.take(k));
        assert(digits_val(s.take(k + 1)) == digits_val(s.take(k)) * 10 + digit_val(s[k]));
    } else {
        assert(s.take(k) =~= s);
    }
}

/// Decimal parsing with the semantics of `str::parse::<usize>`.
pub fn parse_usize(s: &str) -> (r: Option<usize>)
    ensures
        r == spec_parse_usize(s@),
{
    let len = s.unicode_len();
    let mut i: usize = 0;
    if len > 0 && s.get_char(0) == '+' {
        i = 1;
    }
    let ghost start: int = i as int;
    let ghost t: Seq<char> = s@.skip(start);
    proof {
        assert(t =~= (if s@.len() > 0 && s@[0] == '+' {
            s@.skip(1)
        } else {
            s@
        }));
    }
    if i >= len {
        return None;
    }
    let mut acc: usize = 0;
    while i < len
        invariant
            len == s@.len(),
            0 <= start <= i <= len,
            start < len,
            t == s@.skip(start),
            t =~= (if s@.len() > 0 && s@[0] == '+' {
                s@.skip(1)
            } else {
                s@
            }),
            all_digits(t.take(i - start)),
            acc == digits_val(t.take(i - start)),
        decreases len - i,
    {
        let c = s.get_char(i);
        if !('0' <= c && c <= '9') {
            proof {
                assert(t[i - start] == s@[i as int]);
                assert(!is_digit_char(t[i - start]));
            }
            return None;
        }
        let d: usize = (c as u32 as usize) - 48;
        let step = match acc.checked_mul(10) {
            Some(x) => x.checked_add(d),
            None => None,
        };
        match step {
            Some(x) => {
                acc = x;
                proof {
                    assert(t.take(i + 1 - start).drop_last() =~= t.take(i - start));
                    assert(t.take(i + 1 - start).last() == s@[i as int]);
                    assert(digit_val(s@[i as int]) == d);
                }
                i += 1;
            },
            None => {
                proof {
                    let j = i + 1 - start;
                    assert(t.take(j).drop_last() =~= t.take(i - start));
                    assert(t.take(j).last() == s@[i as int]);
                    assert(digits_val(t.take(j)) == acc * 10 + digit_val(s@[i as int]));
                    assert(digits_val(t.take(j)) > usize::MAX);
                    if all_digits(t) {
                        lemma_digits_val_prefix(t, j);
                    }
                }
                return None;
            },
        }
    }
    proof {
        assert(t.take(i - start) =~= t);
    }
    Some(acc)
}

/// The Unicode `White_Space` code points, the set `char::is_whitespace`
/// accepts and `str::trim_end` and `str::split_whitespace` strip.
pub open spec fn is_ws(c: char) -> bool {
    let u = c as u32;
    (9 <= u && u <= 13) || u == 32 || u == 0x85 || u == 0xa0 || u == 0x1680 || (0x2000 <= u && u
        <= 0x200a) || u == 0x2028 || u == 0x2029 || u == 0x202f || u == 0x205f || u == 0x3000
}

/// Whitespace test.
pub fn char_is_ws(c: char) -> (r: bool)
    ensures
        r == is_ws(c),
{
    let u = c as u32;
    (9 <= u && u <= 13) || u == 32 || u == 0x85 || u == 0xa0 || u == 0x1680 || (0x2000 <= u && u
        <= 0x200a) || u == 0x2028 || u == 0x2029 || u == 0x202f || u == 0x205f || u == 0x3000
}

/// An owned copy of the character range `[from, to)` of `s`.
pub fn substr_string(s: &str, from: usize, to: usize) -> (r: String)
    requires
        from <= to <= s@.len(),
    ensures
        r@ == s@.subrange(from as int, to as int),
{
    String::from_str(s.substring_char(from, to))
}

/// `s` with trailing whitespace removed.
pub open spec fn trimmed_end(s: Seq<char>) -> Seq<char>
    decreases s.len(),
{
    if s.len() > 0 && is_ws(s.last()) {
        trimmed_end(s.drop_last())
    } else {
        s
    }
}

/// What `str::trim_end` returns.
pub fn trim_trailing_ws(s: &str) -> (r: String)
    ensures
        r@ == trimmed_end(s@),
{
    let len = s.unicode_len();
    let mut i: usize = len;
    proof {
        assert(s@.take(len as int) =~= s@);
    }
    while i > 0 && char_is_ws(s.get_char(i - 1))
        invariant
            len == s@.len(),
            i <= len,
            trimmed_end(s@) == trimmed_end(s@.take(i as int)),
        decreases i,
    {
        proof {
            assert(s@.take(i as int).last() == s@[i - 1]);
            assert(s@.take(i as int).drop_last() =~= s@.take(i - 1));
        }
        i -= 1;
    }
    proof {
        if i > 0 {
            assert(s@.take(i as int).last() == s@[i - 1]);
        }
        assert(trimmed_end(s@.take(i as int)) == s@.take(i as int));
    }
    substr_string(s, 0, i)
}

/// Index of the first occurrence of `c` in `s`.
pub open spec fn find_char(s: Seq<char>, c: char) -> Option<int>
    decreases s.len(),
{
    if s.len() == 0 {
        None
    } else if s[0] == c {
        Some(0)
    } else {
        match find_char(s.skip(1), c) {
            None => None,
            Some(j) => Some(j + 1),
        }
    }
}

/// `find_char` returns the smallest index holding `c`, if any.
pub proof fn lemma_find_char_is_first(s: Seq<char>, c: char)
    ensures
        match find_char(s, c) {
            Some(i) => 0 <= i < s.len() && s[i] == c && forall|j: int| 0 <= j < i ==> s[j] != c,
            None => forall|j: int| 0 <= j < s.len() ==> s[j] != c,
        },
    decreases s.len(),
{
    if s.len() > 0 && s[0] != c {
        lemma_find_char_is_first(s.skip(1), c);
        match find_char(s.skip(1), c) {
            Some(j) => {
                assert(s.skip(1)[j] == s[j + 1]);
                assert forall|m: int| 0 <= m < j + 1 implies s[m] != c by {
                    if m > 0 {
                        assert(s.skip(1)[m - 1] == s[m]);
                    }
                }
            },
            None => {
                assert forall|m: int| 0 <= m < s.len() implies s[m] != c by {
                    if m > 0 {
                        assert(s.skip(1)[m - 1] == s[m]);
                    }
                }
            },
        }
    }
}

/// First index holding `c`, scanning from the front.
pub fn find_char_index(s: &str, c: char) -> (r: Option<usize>)
    ensures
        match r {
            Some(i) => find_char(s@, c) == Some(i as int),
            None => find_char(s@, c) is None,
        },
{
    proof {
        lemma_find_char_is_first(s@, c);
    }
    let len = s.unicode_len();
    let mut i: usize = 0;
    while i < len
        invariant
            len == s@.len(),
            i <= len,
            forall|j: int| 0 <= j < i ==> s@[j] != c,
        decreases len - i,
    {
        if s.get_char(i) == c {
            proof {
                lemma_find_char_is_first(s@, c);
                match find_char(s@, c) {
                    Some(k) => {
                        assert(k <= i);
                        assert(k >= i);
                    },
                    None => {
                        assert(s@[i as int] == c);
                    },
                }
            }
            return Some(i);
        }
        i += 1;
    }
    None
}

/// Length of the leading run of non-whitespace characters.
pub open spec fn non_ws_run(s: Seq<char>) -> nat
    decreases s.len(),
{
    if s.len() == 0 || is_ws(s[0]) {
        0
    } else {
        1 + non_ws_run(s.skip(1))
    }
}

pub proof fn lemma_non_ws_run_le(s: Seq<char>)
    ensures
        non_ws_run(s) <= s.len(),
        s.len() > 0 && !is_ws(s[0]) ==> non_ws_run(s) >= 1,
    decreases s.len(),
{
    if s.len() > 0 && !is_ws(s[0]) {
        lemma_non_ws_run_le(s.skip(1));
    }
}

/// What `str::split_whitespace` yields: the maximal runs of
/// non-whitespace characters, in order.
pub open spec fn ws_tokens(s: Seq<char>) -> Seq<Seq<char>>
    decreases s.len(),
    via ws_tokens_decreases
{
    if s.len() == 0 {
        Seq::empty()
    } else if is_ws(s[0]) {
        ws_tokens(s.skip(1))
    } else {
        seq![s.take(non_ws_run(s) as int)] + ws_tokens(s.skip(non_ws_run(s) as int))
    }
}

#[via_fn]
proof fn ws_tokens_decreases(s: Seq<char>) {
    lemma_non_ws_run_le(s);
}

/// If `[0, k)` is a non-whitespace run ending at whitespace or the end of
/// the string, then it is the leading run.
proof fn lemma_non_ws_run_exact(s: Seq<char>, k: int)
    requires
        0 <= k <= s.len(),
        forall|j: int| 0 <= j < k ==> !is_ws(#[trigger] s[j]),
        k == s.len() || is_ws(s[k]),
    ensures
        non_ws_run(s) == k,
    decreases k,
{
    if k > 0 {
        lemma_non_ws_run_exact(s.skip(1), k - 1);
    }
}

/// The tokens of `s`, as owned strings.
pub fn split_ws(s: &str) -> (r: Vec<String>)
    ensures
        r.deep_view() == ws_tokens(s@),
{
    let len = s.unicode_len();
    let mut r: Vec<String> = Vec::new();
    let mut i: usize = 0;
    proof {
        assert(s@.skip(0) =~= s@);
        assert(r.deep_view() =~~= Seq::<Seq<char>>::empty());
    }
    while i < len
        invariant
            len == s@.len(),
            i <= len,
            ws_tokens(s@) =~~= r.deep_view() + ws_tokens(s@.skip(i as int)),
        decreases len - i,
    {
        if char_is_ws(s.get_char(i)) {
            proof {
                assert(s@.skip(i as int)[0] == s@[i as int]);
                assert(s@.skip(i as int).skip(1) =~= s@.skip(i + 1));
            }
            i += 1;
        } else {
            let start = i;
            let mut j = i + 1;
            while j < len && !char_is_ws(s.get_char(j))
                invariant
                    len == s@.len(),
                    start < j <= len,
                    forall|m: int| start <= m < j ==> !is_ws(#[trigger] s@[m]),
                decreases len - j,
            {
                j += 1;
            }
            let tok = substr_string(s, start, j);
            r.push(tok);
            proof {
                let u = s@.skip(start as int);
                assert forall|m: int| 0 <= m < j - start implies !is_ws(#[trigger] u[m]) by {
                    assert(u[m] == s@[start + m]);
                }
                if (j as int) - (start as int) < u.len() {
                    assert(u[j - start] == s@[j as int]);
                }
                lemma_non_ws_run_exact(u, j as int - start as int);
                assert(u.take(j as int - start as int) =~= s@.subrange(start as int, j as int));
                assert(u.skip(j as int - start as int) =~= s@.skip(j as int));
                assert(!is_ws(u[0]));
                assert(ws_tokens(u) == seq![s@.subrange(start as int, j as int)] + ws_tokens(
                    s@.skip(j as int),
                ));
            }
            i = j;
        }
    }
    proof {
        assert(s@.skip(len as int) =~= Seq::<char>::empty());
        assert(r.deep_view() =~~= ws_tokens(s@));
    }
    r
}

/// Length of the leading run of characters other than `d`.
pub open spec fn non_delim_run(s: Seq<char>, d: char) -> nat
    decreases s.len(),
{
    if s.len() == 0 || s[0] == d {
        0
    } else {
        1 + non_delim_run(s.skip(1), d)
    }
}

pub proof fn lemma_non_delim_run_le(s: Seq<char>, d: char)
    ensures
        non_delim_run(s, d) <= s.len(),
    decreases s.len(),
{
    if s.len() > 0 && s[0] != d {
        lemma_non_delim_run_le(s.skip(1), d);
    }
}

/// Splitting `s` on `d` and discarding empty pieces: the maximal runs of
/// characters other than `d`, in order.
pub open spec fn split_parts(s: Seq<char>, d: char) -> Seq<Seq<char>>
    decreases s.len(),
    via split_parts_decreases
{
    if s.len() == 0 {
        Seq::empty()
    } else if s[0] == d {
        split_parts(s.skip(1), d)
    } else {
        seq![s.take(non_delim_run(s, d) as int)] + split_parts(s.skip(non_delim_run(s, d) as int), d)
    }
}

#[via_fn]
proof fn split_parts_decreases(s: Seq<char>, d: char) {
    lemma_non_delim_run_le(s, d);
}

proof fn lemma_non_delim_run_exact(s: Seq<char>, d: char, k: int)
    requires
        0 <= k <= s.len(),
        forall|j: int| 0 <= j < k ==> #[trigger] s[j] != d,
        k == s.len() || s[k] == d,
    ensures
        non_delim_run(s, d) == k,
    decreases k,
{
    if k > 0 {
        lemma_non_delim_run_exact(s.skip(1), d, k - 1);
    }
}

/// The non-empty pieces of `s` split on `d`, as owned strings.
pub fn split_on_char(s: &str, d: char) -> (r: Vec<String>)
    ensures
        r.deep_view() == split_parts(s@, d),
{
    let len = s.unicode_len();
    let mut r: Vec<String> = Vec::new();
    let mut i: usize = 0;
    proof {
        assert(s@.skip(0) =~= s@);
        assert(r.deep_view() =~~= Seq::<Seq<char>>::empty());
    }
    while i < len
        invariant
            len == s@.len(),
            i <= len,
            split_parts(s@, d) =~~= r.deep_view() + split_parts(s@.skip(i as int), d),
        decreases len - i,
    {
        if s.get_char(i) == d {
            proof {
                assert(s@.skip(i as int)[0] == s@[i as int]);
                assert(s@.skip(i as int).skip(1) =~= s@.skip(i + 1));
            }
            i += 1;
        } else {
            let start = i;
            let mut j = i + 1;
            while j < len && s.get_char(j) != d
                invariant
                    len == s@.len(),
                    start < j <= len,
                    forall|m: int| start <= m < j ==> #[trigger] s@[m] != d,
                decreases len - j,
            {
                j += 1;
            }
            let part = substr_string(s, start, j);
            r.push(part);
            proof {
                let u = s@.skip(start as int);
                assert forall|m: int| 0 <= m < j - start implies #[trigger] u[m] != d by {
                    assert(u[m] == s@[start + m]);
                }
                if (j as int) - (start as int) < u.len() {
                    assert(u[j - start] == s@[j as int]);
                }
                lemma_non_delim_run_exact(u, d, j as int - start as int);
                assert(u.take(j as int - start as int) =~= s@.subrange(start as int, j as int));
                assert(u.skip(j as int - start as int) =~= s@.skip(j as int));
                assert(u[0] != d);
                assert(split_parts(u, d) == seq![s@.subrange(start as int, j as int)]
                    + split_parts(s@.skip(j as int), d));
            }
            i = j;
        }
    }
    proof {
        assert(s@.skip(len as int) =~= Seq::<char>::empty());
        assert(r.deep_view() =~~= split_parts(s@, d));
    }
    r
}

/// Character-by-character string equality.
pub fn str_eq(a: &str, b: &str) -> (r: bool)
    ensures
        r == (a@ == b@),
{
    let alen = a.unicode_len();
    let blen = b.unicode_len();
    if alen != blen {
        return false;
    }
    let mut i: usize = 0;
    while i < alen
        invariant
            alen == a@.len(),
            alen == b@.len(),
            i <= alen,
            forall|j: int| 0 <= j < i ==> a@[j] == b@[j],
        decreases alen - i,
    {
        if a.get_char(i) != b.get_char(i) {
            return false;
        }
        i += 1;
    }
    proof {
        assert(a@ =~= b@);
    }
    true
}

} // verus!
