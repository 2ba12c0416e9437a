//! Bearer-token check: a request is let in when its `Authorization` header carries
//! `Bearer <token>` or its query string has a `token` parameter equal to the token.

use vstd::prelude::*;
use vstd::string::*;

use crate::text::str_eq;

verus! {

/// The (name, value) pairs that `form_urlencoded::parse` reads from a query string,
/// percent-decoded, in order.
pub uninterp spec fn urlencoded_pairs(query: Seq<char>) -> Seq<(Seq<char>, Seq<char>)>;

/// Parses a query string with `form_urlencoded::parse` (names and values are
/// percent-decoded, `+` read as a space). The contract only names the result: the
/// pairs are `urlencoded_pairs` of the query, a function of the query alone.
#[verifier::external_body]
fn query_pairs(query: &str) -> (r: Vec<(String, String)>)
    ensures
        r.deep_view() == urlencoded_pairs(query@),
{
    form_urlencoded::parse(query.as_bytes()).into_owned().collect()
}

/// The header value is `Bearer ` followed by exactly the expected token.
pub open spec fn bearer_matches(expected: Seq<char>, header: Seq<char>) -> bool {
    header.len() >= 7 && header.take(7) == "Bearer "@ && header.skip(7) == expected
}

/// Some `token` parameter equals the expected token.
pub open spec fn query_matches(expected: Seq<char>, pairs: Seq<(Seq<char>, Seq<char>)>) -> bool {
    exists|i: int| 0 <= i < pairs.len() && #[trigger] pairs[i] == ("token"@, expected)
}

/// Whether the header or the already parsed query pairs carry the expected token.
pub fn token_matches(expected: &str, authorization: Option<&str>, pairs: &Vec<(String, String)>) -> (r: bool)
    ensures
        r == ((match authorization {
            Some(h) => bearer_matches(expected@, h@),
            None => false,
        }) || query_matches(expected@, pairs.deep_view())),
{
    let header_ok = match authorization {
        Some(h) => {
            let n = h.unicode_len();
            if n >= 7 && str_eq(h.substring_char(0, 7), "Bearer ") {
                proof {
                    assert(h@.subrange(0, 7) =~= h@.take(7));
                    assert(h@.subrange(7, n as int) =~= h@.skip(7));
                }
                str_eq(h.substring_char(7, n), expected)
            } else {
                proof {
                    assert(n >= 7 ==> h@.subrange(0, 7) =~= h@.take(7));
                }
                false
            }
        },
        None => false,
    };
    if header_ok {
        return true;
    }
    let ghost pv = pairs.deep_view();
    let mut i: usize = 0;
    while i < pairs.len()
        invariant
            pv == pairs.deep_view(),
            i <= pairs.len(),
            forall|j: int| 0 <= j < i ==> #[trigger] pv[j] != ("token"@, expected@),
        decreases pairs.len() - i,
    {
        proof {
            assert(pv[i as int] == (pairs@[i as int].0@, pairs@[i as int].1@));
        }
        if str_eq(pairs[i].0.as_str(), "token") && str_eq(pairs[i].1.as_str(), expected) {
            proof {
                assert(pv[i as int] == ("token"@, expected@));
            }
            return true;
        }
        i = i + 1;
    }
    false
}

/// Whether a request carries the expected token, in its `Authorization` header value
/// (`Bearer <token>`) or as a `token` parameter of its query string.
pub fn token_ok(expected: &str, authorization: Option<&str>, query: Option<&str>) -> (r: bool)
    ensures
        r == ((match authorization {
            Some(h) => bearer_matches(expected@, h@),
            None => false,
        }) || (match query {
            Some(q) => query_matches(expected@, urlencoded_pairs(q@)),
            None => false,
        })),
{
    let pairs = match query {
        Some(q) => query_pairs(q),
        None => Vec::new(),
    };
    proof {
        if query is None {
            assert(pairs.deep_view() =~= Seq::<(Seq<char>, Seq<char>)>::empty());
        }
    }
    token_matches(expected, authorization, &pairs)
}

} // verus!
