//! The transport seam: what a request and a response hold, and the trait
//! of whatever carries one exchange out.

use crate::entries::entries_view;
use vstd::prelude::*;
use vstd::utf8::encode_utf8;

verus! {

/// The two HTTP methods that the client uses.
#[derive(Debug, Clone, Copy)]
pub enum Method {
    POST,
    GET,
}

/// Credentials for basic authentication.
#[derive(Debug)]
pub struct Auth<'a> {
    pub username: &'a str,
    pub password: &'a str,
}

/// One request: where it goes, how, as whom, with which query parameters
/// and with which body.
#[derive(Debug)]
pub struct Request<'a> {
    pub url: String,
    pub method: Method,
    pub auth: Option<Auth<'a>>,
    /// Query parameters in the order in which they are sent, each key once.
    pub query: Option<Vec<(&'a str, String)>>,
    pub body: Option<String>,
}

/// What a server answered.
#[derive(Debug, Clone)]
pub struct Response {
    pub status: u16,
    pub body: String,
}

/// What a request holds, as plain values.
pub struct RequestView {
    pub url: Seq<char>,
    pub method: Method,
    /// User name and password.
    pub auth: Option<(Seq<char>, Seq<char>)>,
    /// Keys and values, in order.
    pub query: Option<Seq<(Seq<char>, Seq<char>)>>,
    pub body: Option<Seq<char>>,
}

/// What a response holds, as plain values.
pub struct ResponseView {
    pub status: u16,
    pub body: Seq<char>,
}

/// Keys and values of a list of query parameters, in order.
pub open spec fn query_view(q: Seq<(&str, String)>) -> Seq<(Seq<char>, Seq<char>)> {
    Seq::new(q.len(), |i: int| (q[i].0@, q[i].1@))
}

/// True when no key occurs twice among the parameters.
pub open spec fn distinct_keys(q: Seq<(Seq<char>, Seq<char>)>) -> bool {
    forall|i: int, j: int| 0 <= i < j < q.len() ==> (#[trigger] q[i]).0 != (#[trigger] q[j]).0
}

impl<'a> View for Request<'a> {
    type V = RequestView;

    open spec fn view(&self) -> RequestView {
        RequestView {
            url: self.url@,
            method: self.method,
            auth: match self.auth {
                Some(a) => Some((a.username@, a.password@)),
                None => None,
            },
            query: match self.query {
                Some(q) => Some(query_view(q@)),
                None => None,
            },
            body: match self.body {
                Some(b) => Some(b@),
                None => None,
            },
        }
    }
}

impl View for Response {
    type V = ResponseView;

    open spec fn view(&self) -> ResponseView {
        ResponseView { status: self.status, body: self.body@ }
    }
}

impl Response {
    /// The body of the response.
    pub fn to_string(&self) -> (r: String)
        ensures
            r@ == self.body@,
    {
        self.body.clone()
    }
}

/// What came of one exchange: the response, or the transport's own words
/// on why there is none.
pub open spec fn reply_view(reply: Result<Response, String>) -> Result<ResponseView, Seq<char>> {
    match reply {
        Ok(response) => Ok(response@),
        Err(message) => Err(message@),
    }
}

/// Why `url::Url::parse` takes a text for no absolute URL, in the words
/// that `Debug` has for its `ParseError`; `None` for a text that it parses.
pub uninterp spec fn url_parse_failure(url: Seq<char>) -> Option<Seq<char>>;

/// The text that `url::Url::as_str` gives of the URL parsed from a text.
pub uninterp spec fn url_serialization(url: Seq<char>) -> Seq<char>;

/// The names and values that `url::Url::query_pairs` reads from the query
/// string of the URL parsed from a text, in order.
pub uninterp spec fn url_query_pairs(url: Seq<char>) -> Seq<(Seq<char>, Seq<char>)>;

/// The text of the URL parsed from a text once the pairs have been put in
/// the place of its query string, as `url::Url::query_pairs_mut` with
/// `clear` and `extend_pairs` does it.
pub uninterp spec fn url_with_query(url: Seq<char>, pairs: Seq<(Seq<char>, Seq<char>)>) -> Seq<
    char,
>;

/// The largest weight of an address with its query parameters: the URL
/// crate keeps its offsets into an address in 32 bits.
pub const URL_LIMIT: u64 = 0xFFFF_FFFF;

/// The room that query parameters may take once encoded: three bytes for
/// each byte of a name or a value, and two bytes for the separators.
pub open spec fn pairs_weight(pairs: Seq<(Seq<char>, Seq<char>)>) -> nat
    decreases pairs.len(),
{
    if pairs.len() == 0 {
        0
    } else {
        pairs_weight(pairs.drop_last()) + 3 * (encode_utf8(pairs.last().0).len() + encode_utf8(
            pairs.last().1,
        ).len()) + 2
    }
}

/// The room that an address may take with the given query parameters:
/// sixteen bytes for each byte of the address as it was given, and the
/// weight of the parameters.
pub open spec fn url_weight(url: Seq<char>, pairs: Seq<(Seq<char>, Seq<char>)>) -> nat {
    16 * encode_utf8(url).len() + pairs_weight(pairs)
}

/// Calls `url::Url::parse` on `url` and, where it fails, writes the
/// `ParseError` with `Debug`. The contract names the outcome after the
/// text alone.
#[verifier::external_body]
fn parse_failure(url: &str) -> (r: Option<String>)
    ensures
        r is Some <==> url_parse_failure(url@) is Some,
        r matches Some(why) ==> url_parse_failure(url@) == Some(why@),
{
    match url::Url::parse(url) {
        Ok(_) => None,
        Err(e) => Some(format!("{:?}", e)),
    }
}

/// Calls `url::Url::parse` on a text that it parses and copies what
/// `url::Url::as_str` gives. The contract names the result after the text
/// alone.
#[verifier::external_body]
fn serialization(url: &str) -> (r: String)
    requires
        url_parse_failure(url@) is None,
    ensures
        r@ == url_serialization(url@),
{
    url::Url::parse(url).unwrap().as_str().to_owned()
}

/// Calls `url::Url::parse` on a text that it parses and collects what
/// `url::Url::query_pairs` yields, each pair as owned strings. The
/// contract names the pairs after the text alone.
#[verifier::external_body]
fn query_pairs(url: &str) -> (r: Vec<(String, String)>)
    requires
        url_parse_failure(url@) is None,
    ensures
        entries_view(r@) == url_query_pairs(url@),
{
    url::Url::parse(url).unwrap().query_pairs().into_owned().collect()
}

/// Calls `url::Url::parse` on a text that it parses, then
/// `url::Url::query_pairs_mut` with `clear` and `extend_pairs` to put
/// `pairs` in the place of the query string, and copies the text of the
/// URL. The contract names the result after the text and the pairs. The
/// crate panics where the address outgrows 32 bits, which the bound on
/// the weight keeps away.
#[verifier::external_body]
fn with_query(url: &str, pairs: &Vec<(String, String)>) -> (r: String)
    requires
        url_parse_failure(url@) is None,
        url_weight(url@, entries_view(pairs@)) <= URL_LIMIT,
    ensures
        r@ == url_with_query(url@, entries_view(pairs@)),
{
    let mut parsed = url::Url::parse(url).unwrap();
    parsed.query_pairs_mut().clear().extend_pairs(pairs.iter());
    parsed.as_str().to_owned()
}

/// Why a request has no address to go to.
#[derive(Debug)]
pub enum UrlError {
    /// The address is no absolute URL; with the reason.
    Unparsable(String),
    /// The address with its query parameters is longer than an address
    /// can be.
    TooLong,
}

/// What a `UrlError` holds, as plain values.
pub enum UrlErrorView {
    Unparsable(Seq<char>),
    TooLong,
}

impl View for UrlError {
    type V = UrlErrorView;

    open spec fn view(&self) -> UrlErrorView {
        match self {
            UrlError::Unparsable(why) => UrlErrorView::Unparsable(why@),
            UrlError::TooLong => UrlErrorView::TooLong,
        }
    }
}

/// The query parameters that a request goes out with: those that its
/// address already has, then those given with it.
pub open spec fn merged_query(
    existing: Seq<(Seq<char>, Seq<char>)>,
    given: Seq<(Seq<char>, Seq<char>)>,
) -> Seq<(Seq<char>, Seq<char>)> {
    existing + given
}

/// The address that a request goes out to. A request without query
/// parameters goes to its address as the URL crate writes it; one with
/// query parameters has them merged with those of its address.
pub open spec fn dispatch_target(req: RequestView) -> Result<Seq<char>, UrlErrorView> {
    match url_parse_failure(req.url) {
        Some(why) => Err(UrlErrorView::Unparsable("could not parse url: "@ + why)),
        None => match req.query {
            None => Ok(url_serialization(req.url)),
            Some(given) => {
                let merged = merged_query(url_query_pairs(req.url), given);
                if url_weight(req.url, merged) <= URL_LIMIT {
                    Ok(url_with_query(req.url, merged))
                } else {
                    Err(UrlErrorView::TooLong)
                }
            },
        },
    }
}

/// The outcome of `dispatch_url`, as plain values.
pub open spec fn target_view(r: Result<String, UrlError>) -> Result<Seq<char>, UrlErrorView> {
    match r {
        Ok(url) => Ok(url@),
        Err(e) => Err(e@),
    }
}

/// The weight of a list of parameters is at least that of its beginning.
pub proof fn lemma_pairs_weight_grows(pairs: Seq<(Seq<char>, Seq<char>)>, n: int)
    requires
        0 <= n <= pairs.len(),
    ensures
        pairs_weight(pairs.take(n)) <= pairs_weight(pairs),
    decreases pairs.len(),
{
    if n == pairs.len() {
        assert(pairs.take(n) =~= pairs);
    } else {
        lemma_pairs_weight_grows(pairs.drop_last(), n);
        assert(pairs.drop_last().take(n) =~= pairs.take(n));
    }
}

/// Puts the parameters given with a request behind those that its address
/// already has.
pub fn merge_query(existing: Vec<(String, String)>, given: &Vec<(&str, String)>) -> (r: Vec<
    (String, String),
>)
    ensures
        entries_view(r@) == merged_query(entries_view(existing@), query_view(given@)),
{
    let mut merged = existing;
    let mut i: usize = 0;
    proof {
        assert(entries_view(merged@) =~= entries_view(existing@) + query_view(given@).take(0));
    }
    while i < given.len()
        invariant
            i <= given.len(),
            entries_view(merged@) == entries_view(existing@) + query_view(given@).take(i as int),
        decreases given.len() - i,
    {
        let ghost before = entries_view(merged@);
        let key = given[i].0.to_owned();
        let value = given[i].1.clone();
        merged.push((key, value));
        proof {
            assert(entries_view(merged@) =~= before.push(query_view(given@)[i as int]));
            assert(query_view(given@).take(i + 1) =~= query_view(given@).take(i as int).push(
                query_view(given@)[i as int],
            ));
            assert(entries_view(merged@) =~= entries_view(existing@) + query_view(given@).take(
                i + 1,
            ));
        }
        i += 1;
    }
    proof {
        assert(query_view(given@).take(i as int) =~= query_view(given@));
    }
    merged
}

/// Says whether an address with the given query parameters stays within
/// the length that an address can have.
pub fn fits_url(url: &str, pairs: &Vec<(String, String)>) -> (r: bool)
    ensures
        r == (url_weight(url@, entries_view(pairs@)) <= URL_LIMIT),
{
    let ghost all = entries_view(pairs@);
    let n = url.as_bytes().len();
    if n > 0x0FFF_FFFF {
        return false;
    }
    let mut total: u64 = 16 * (n as u64);
    let mut i: usize = 0;
    proof {
        assert(all.take(0) =~= Seq::empty());
    }
    while i < pairs.len()
        invariant
            i <= pairs.len(),
            all == entries_view(pairs@),
            total == 16 * encode_utf8(url@).len() + pairs_weight(all.take(i as int)),
            total <= URL_LIMIT,
        decreases pairs.len() - i,
    {
        proof {
            assert(all.take(i + 1).drop_last() =~= all.take(i as int));
            lemma_pairs_weight_grows(all, i + 1);
        }
        let k = pairs[i].0.as_str().as_bytes().len();
        let v = pairs[i].1.as_str().as_bytes().len();
        if k > 0xFFFF_FFFF || v > 0xFFFF_FFFF {
            return false;
        }
        let more: u64 = 3 * (k as u64 + v as u64) + 2;
        if more > URL_LIMIT - total {
            return false;
        }
        total = total + more;
        i += 1;
    }
    proof {
        assert(all.take(i as int) =~= all);
    }
    true
}

impl<'a> Request<'a> {
    /// The address that the request goes out to: its own address where it
    /// brings no query parameters, and else its address with the
    /// parameters that it has followed by those that the request brings.
    pub fn dispatch_url(&self) -> (r: Result<String, UrlError>)
        ensures
            target_view(r) == dispatch_target(self@),
    {
        match parse_failure(self.url.as_str()) {
            Some(why) => {
                let mut message = String::from_str("could not parse url: ");
                message.append(why.as_str());
                Err(UrlError::Unparsable(message))
            },
            None => {
                match &self.query {
                    None => Ok(serialization(self.url.as_str())),
                    Some(given) => {
                        let merged = merge_query(query_pairs(self.url.as_str()), given);
                        if fits_url(self.url.as_str(), &merged) {
                            Ok(with_query(self.url.as_str(), &merged))
                        } else {
                            Err(UrlError::TooLong)
                        }
                    },
                }
            },
        }
    }
}

/// A transport: it carries out one exchange. Nothing is known beforehand
/// of what comes back.
pub trait Hurl {
    fn request(&self, req: Request<'_>) -> Result<Response, String>;
}

/// A boxed transport is a transport: the box hands the request on.
impl<T: Hurl + ?Sized> Hurl for Box<T> {
    /// Gives back what the transport in the box gives on the request.
    fn request(&self, req: Request<'_>) -> (r: Result<Response, String>)
        ensures
            call_ensures(T::request, (&**self, req), r),
    {
        (**self).request(req)
    }
}

} // verus!
