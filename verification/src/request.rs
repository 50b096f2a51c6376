//! The HTTP request model: verb, raw path and query, headers, body, and
//! query parameters parsed on demand from the query string.

use vstd::prelude::*;
use vstd::string::StrSliceExecFns;
use crate::strmap::StrMap;
use crate::strmap::keys_distinct;
use crate::strmap::lemma_insert_distinct;
use crate::strmap::spec_insert;
use crate::text::find_char;
use crate::text::find_char_index;
use crate::text::split_on_char;
use crate::text::split_parts;
use crate::text::substr_string;

verus! {

/// An HTTP request as the connection handler assembles it. Fields default
/// to empty when the peer sent something unusable.
pub struct Request {
    pub method: String,
    pub url: String,
    pub headers: StrMap,
    pub body: String,
}

/// The part of a raw URL before the first `?`.
pub open spec fn path_of(url: Seq<char>) -> Seq<char> {
    match find_char(url, '?') {
        None => url,
        Some(i) => url.take(i),
    }
}

/// The part of a raw URL after the first `?`, empty when there is none.
pub open spec fn query_of(url: Seq<char>) -> Seq<char> {
    match find_char(url, '?') {
        None => Seq::empty(),
        Some(i) => url.skip(i + 1),
    }
}

/// One `key=value` piece: the part before the first `=`, and the part
/// after it, which is empty when there is no `=`.
pub open spec fn pair_of_piece(p: Seq<char>) -> (Seq<char>, Seq<char>) {
    match find_char(p, '=') {
        None => (p, Seq::empty()),
        Some(i) => (p.take(i), p.skip(i + 1)),
    }
}

/// The query pairs accumulated left to right, last write winning.
pub open spec fn query_pairs(pieces: Seq<Seq<char>>) -> Seq<(Seq<char>, Seq<char>)>
    decreases pieces.len(),
{
    if pieces.len() == 0 {
        Seq::empty()
    } else {
        spec_insert(
            query_pairs(pieces.drop_last()),
            pair_of_piece(pieces.last()).0,
            pair_of_piece(pieces.last()).1,
        )
    }
}

/// The query parameters of a raw URL: the non-empty `&`-separated pieces
/// of its query string, each split at its first `=`.
pub open spec fn spec_query_params(url: Seq<char>) -> Seq<(Seq<char>, Seq<char>)> {
    query_pairs(split_parts(query_of(url), '&'))
}

impl Request {
    /// A request with every field empty, handed to the router when the
    /// peer's bytes could not be read at all.
    pub fn empty() -> (r: Request)
        ensures
            r.method@ == Seq::<char>::empty(),
            r.url@ == Seq::<char>::empty(),
            r.headers@ == Seq::<(Seq<char>, Seq<char>)>::empty(),
            r.body@ == Seq::<char>::empty(),
    {
        Request { method: String::new(), url: String::new(), headers: StrMap::new(), body: String::new() }
    }

    /// The query parameters parsed from the URL's query string,
    /// string to string, last write winning.
    pub fn query_params(&self) -> (r: StrMap)
        ensures
            r@ == spec_query_params(self.url@),
            keys_distinct(r@),
    {
        let url = self.url.as_str();
        let query: String = match find_char_index(url, '?') {
            None => {
                proof {
                    assert(query_of(self.url@) =~= Seq::<char>::empty());
                }
                String::new()
            },
            Some(i) => {
                proof {
                    crate::text::lemma_find_char_is_first(url@, '?');
                }
                let len = url.unicode_len();
                substr_string(url, i + 1, len)
            },
        };
        proof {
            assert(query@ == query_of(self.url@));
        }
        let pieces = split_on_char(query.as_str(), '&');
        let mut r = StrMap::new();
        let n = pieces.len();
        let mut i: usize = 0;
        let ghost pv = pieces.deep_view();
        proof {
            assert(pv.take(0) =~= Seq::<Seq<char>>::empty());
            assert(r@ =~= query_pairs(pv.take(0)));
        }
        while i < n
            invariant
                n == pv.len(),
                n == pieces@.len(),
                pv == pieces.deep_view(),
                i <= n,
                r@ == query_pairs(pv.take(i as int)),
                keys_distinct(r@),
            decreases n - i,
        {
            let piece = pieces[i].as_str();
            let plen = piece.unicode_len();
            let (k, v) = match find_char_index(piece, '=') {
                None => {
                    proof {
                        assert(pair_of_piece(piece@).1 =~= Seq::<char>::empty());
                    }
                    (substr_string(piece, 0, plen), String::new())
                },
                Some(j) => {
                    proof {
                        crate::text::lemma_find_char_is_first(piece@, '=');
                    }
                    (substr_string(piece, 0, j), substr_string(piece, j + 1, plen))
                },
            };
            proof {
                assert(piece@ == pv[i as int]);
                assert(piece@.take(plen as int) =~= piece@);
                assert((k@, v@) == pair_of_piece(pv[i as int]));
                lemma_insert_distinct(r@, k@, v@);
                assert(pv.take(i + 1).drop_last() =~= pv.take(i as int));
                assert(pv.take(i + 1).last() == pv[i as int]);
            }
            r.insert(k, v);
            i += 1;
        }
        proof {
            assert(pv.take(n as int) =~= pv);
        }
        r
    }
}

} // verus!
