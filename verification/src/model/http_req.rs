//! How a node addresses its peers: the URL of each request, and how a reply
//! status is read.
use vstd::prelude::*;
use vstd::string::StringExecFns;

verus! {

broadcast use vstd::string::group_string_axioms;

/// `/p` for each parameter `p`, in order.
pub open spec fn params_suffix(params: Seq<Seq<char>>) -> Seq<char>
    decreases params.len(),
{
    if params.len() == 0 {
        Seq::empty()
    } else {
        params_suffix(params.drop_last()) + seq!['/'] + params.last()
    }
}

/// The URL of a request to `host` on `route` with the given path
/// parameters: `host/route/p1/p2...`.
pub open spec fn request_url_spec(host: Seq<char>, route: Seq<char>, params: Seq<Seq<char>>) -> Seq<char> {
    host + seq!['/'] + route + params_suffix(params)
}

/// The URL of a request to `host` on `route` with the given path
/// parameters.
pub fn request_url(host: &str, route: &str, params: &Vec<String>) -> (r: String)
    ensures
        r@ == request_url_spec(host@, route@, params@.map_values(|p: String| p@)),
{
    let ghost texts = params@.map_values(|p: String| p@);
    let mut url = String::from_str(host);
    url.append("/");
    url.append(route);
    proof {
        reveal_strlit("/");
        assert(texts.take(0) =~= Seq::<Seq<char>>::empty());
        assert(url@ =~= host@ + seq!['/'] + route@ + params_suffix(texts.take(0)));
    }
    let mut i: usize = 0;
    while i < params.len()
        invariant
            i <= params@.len(),
            texts == params@.map_values(|p: String| p@),
            url@ == host@ + seq!['/'] + route@ + params_suffix(texts.take(i as int)),
        decreases params@.len() - i,
    {
        url.append("/");
        url.append(params[i].as_str());
        proof {
            reveal_strlit("/");
            assert(texts.take(i + 1).drop_last() =~= texts.take(i as int));
            assert(url@ =~= host@ + seq!['/'] + route@ + params_suffix(texts.take(i + 1)));
        }
        i = i + 1;
    }
    proof {
        assert(texts.take(params@.len() as int) =~= texts);
    }
    url
}

/// Whether a reply status is a success (2xx).
pub fn is_success(status: u16) -> (r: bool)
    ensures
        r == (200 <= status && status < 300),
{
    200 <= status && status < 300
}

/// Whether a reply to a lookup carries a value: every status but
/// 404 Not Found does.
pub fn is_found(status: u16) -> (r: bool)
    ensures
        r == (status != 404),
{
    status != 404
}

} // verus!
