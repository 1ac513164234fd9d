//! Validation of the text returned by an element-text query.
//!
//! The query itself is a network fetch and lives outside this library; the
//! library only decides whether a response body is a valid query result or
//! the provider's rejection notice.

use vstd::prelude::*;
use vstd::string::*;

verus! {

/// The address from which the element text for a query is fetched: the
/// provider's endpoint with the query type, the queried value, and the
/// element-text format appended.
pub open spec fn spec_query_url(query: Seq<char>, value: Seq<char>) -> Seq<char> {
    "https://celestrak.org/NORAD/elements/gp.php?"@ + query + "="@ + value + "&FORMAT=tle"@
}

/// Builds the address from which the element text for a query is
/// fetched.  The fetch itself is a network call and lives outside this
/// library.
pub fn query_url(query: &str, value: &str) -> (url: String)
    ensures
        url@ == spec_query_url(query@, value@),
{
    let mut url = String::new();
    url.append("https://celestrak.org/NORAD/elements/gp.php?");
    url.append(query);
    url.append("=");
    url.append(value);
    url.append("&FORMAT=tle");
    proof {
        assert(url@ =~= spec_query_url(query@, value@));
    }
    url
}

/// The notice with which the element-text provider rejects a query.
pub open spec fn rejection_notice() -> Seq<char> {
    "Invalid query"@
}

/// Whether a response body is a valid query result: any body is, unless it
/// opens with the provider's rejection notice.
pub open spec fn spec_is_query_valid(body: Seq<char>) -> bool {
    !(body.len() >= rejection_notice().len() && body.subrange(
        0,
        rejection_notice().len() as int,
    ) == rejection_notice())
}

/// Decides whether a response body is a valid query result, that is,
/// whether it does not start with the rejection notice `"Invalid query"`.
pub fn is_query_valid(response_body: &str) -> (r: bool)
    ensures
        r == spec_is_query_valid(response_body@),
{
    let notice = "Invalid query";
    proof {
        reveal_strlit("Invalid query");
    }
    let len = notice.unicode_len();
    if response_body.unicode_len() < len {
        return true;
    }
    let mut j: usize = 0;
    while j < len
        invariant
            0 <= j <= len,
            len == rejection_notice().len(),
            notice@ == rejection_notice(),
            response_body@.len() >= len,
            forall|k: int| 0 <= k < j ==> response_body@[k] == rejection_notice()[k],
        decreases len - j,
    {
        if response_body.get_char(j) != notice.get_char(j) {
            proof {
                let pre = response_body@.subrange(0, rejection_notice().len() as int);
                assert(pre[j as int] != rejection_notice()[j as int]);
            }
            return true;
        }
        j = j + 1;
    }
    proof {
        assert(response_body@.subrange(0, rejection_notice().len() as int)
            =~= rejection_notice());
    }
    false
}

} // verus!
