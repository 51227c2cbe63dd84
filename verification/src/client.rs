//! The client: requests for writes and queries, the split of a write into
//! batches, and the meaning of what the server answers.

use crate::hurl::{
    distinct_keys, query_view, reply_view, Auth, Hurl, Method, Request, RequestView, Response,
    ResponseView,
};
use crate::point::{line_text, Point, PointView};
use crate::text::{decimal, push_decimal};
use vstd::prelude::*;

verus! {

/// The number of points that a client sends in one request unless told
/// otherwise.
pub const MAX_BATCH: u16 = 5000;

pub type ClientResult<T> = Result<T, ClientError>;

/// Who writes, and into which database.
pub struct Credentials<'a> {
    pub username: &'a str,
    pub password: &'a str,
    pub database: &'a str,
}

/// What credentials hold, as plain values.
pub struct CredentialsView {
    pub username: Seq<char>,
    pub password: Seq<char>,
    pub database: Seq<char>,
}

impl<'a> View for Credentials<'a> {
    type V = CredentialsView;

    open spec fn view(&self) -> CredentialsView {
        CredentialsView {
            username: self.username@,
            password: self.password@,
            database: self.database@,
        }
    }
}

/// The unit of time in which timestamps are read or returned.
#[derive(Debug, Clone, Copy)]
pub enum Precision {
    Nanoseconds,
    Microseconds,
    Milliseconds,
    Seconds,
    Minutes,
    Hours,
}

impl Precision {
    /// The code that names this unit in a request.
    pub open spec fn code(self) -> Seq<char> {
        match self {
            Precision::Nanoseconds => "n"@,
            Precision::Microseconds => "u"@,
            Precision::Milliseconds => "ms"@,
            Precision::Seconds => "s"@,
            Precision::Minutes => "m"@,
            Precision::Hours => "h"@,
        }
    }

    /// The code that names this unit in a request.
    pub fn to_string(&self) -> (r: String)
        ensures
            r@ == self.code(),
    {
        match *self {
            Precision::Nanoseconds => String::from_str("n"),
            Precision::Microseconds => String::from_str("u"),
            Precision::Milliseconds => String::from_str("ms"),
            Precision::Seconds => String::from_str("s"),
            Precision::Minutes => String::from_str("m"),
            Precision::Hours => String::from_str("h"),
        }
    }
}

/// Why a write or a query failed.
#[derive(Debug)]
pub enum ClientError {
    /// The server took the write only in part; with its answer.
    CouldNotComplete(String),
    /// No response came; with the transport's own words.
    Communication(String),
    /// The server refused the request as malformed; with its answer.
    Syntax(String),
    /// The server answered with a status that has no meaning here; with
    /// the status and the answer.
    Unexpected(String),
    Unknown,
}

/// What an error holds, as plain values.
pub enum ClientErrorView {
    CouldNotComplete(Seq<char>),
    Communication(Seq<char>),
    Syntax(Seq<char>),
    Unexpected(Seq<char>),
    Unknown,
}

impl View for ClientError {
    type V = ClientErrorView;

    open spec fn view(&self) -> ClientErrorView {
        match self {
            ClientError::CouldNotComplete(s) => ClientErrorView::CouldNotComplete(s@),
            ClientError::Communication(s) => ClientErrorView::Communication(s@),
            ClientError::Syntax(s) => ClientErrorView::Syntax(s@),
            ClientError::Unexpected(s) => ClientErrorView::Unexpected(s@),
            ClientError::Unknown => ClientErrorView::Unknown,
        }
    }
}

/// An error of input or output, as the standard library has it. Nothing of
/// what it holds is known here.
#[verifier::external_type_specification]
#[verifier::external_body]
pub struct ExIoError(std::io::Error);

/// Writes an error of input or output with `Display`, through `format!`.
/// The words come from the operating system, and nothing is claimed of
/// them.
#[verifier::external_body]
fn io_error_text(e: &std::io::Error) -> String {
    format!("{}", e)
}

impl From<std::io::Error> for ClientError {
    /// An error of input or output is a failure of communication.
    fn from(e: std::io::Error) -> (r: Self)
        ensures
            r is Communication,
    {
        ClientError::Communication(io_error_text(&e))
    }
}

/// The conversion has no value in specifications: the message depends on
/// the operating system. What `from` gives is said by its own `ensures`.
impl vstd::std_specs::convert::FromSpecImpl<std::io::Error> for ClientError {
    open spec fn obeys_from_spec() -> bool {
        false
    }

    open spec fn from_spec(e: std::io::Error) -> Self {
        vstd::pervasive::arbitrary()
    }
}

/// How a write that the server took ended.
pub enum WriteStatus {
    Success,
    CouldNotComplete,
}

/// Settings that a caller may override.
pub struct Options {
    pub max_batch: Option<u16>,
    pub precision: Option<Precision>,
    pub epoch: Option<Precision>,
    pub chunk_size: Option<u16>,
}

/// The message of an error on a status that has no meaning here.
pub open spec fn unexpected_text(status: u16, body: Seq<char>) -> Seq<char> {
    "Unexpected response. Status: "@ + decimal(status as nat) + "; Body: \""@ + body + "\""@
}

/// What the answer to a write means: 204 is success, 200 a write that
/// could not complete, 400 a syntax error, any other status unexpected;
/// and no response at all is a failure of communication.
pub open spec fn write_outcome(reply: Result<ResponseView, Seq<char>>) -> Result<
    (),
    ClientErrorView,
> {
    match reply {
        Err(message) => Err(ClientErrorView::Communication(message)),
        Ok(response) => if response.status == 204 {
            Ok(())
        } else if response.status == 200 {
            Err(ClientErrorView::CouldNotComplete(response.body))
        } else if response.status == 400 {
            Err(ClientErrorView::Syntax(response.body))
        } else {
            Err(ClientErrorView::Unexpected(unexpected_text(response.status, response.body)))
        },
    }
}

/// What the answer to a query means: 200 is success and brings the body,
/// 400 is a syntax error, any other status unexpected; and no response at
/// all is a failure of communication.
pub open spec fn query_outcome(reply: Result<ResponseView, Seq<char>>) -> Result<
    Seq<char>,
    ClientErrorView,
> {
    match reply {
        Err(message) => Err(ClientErrorView::Communication(message)),
        Ok(response) => if response.status == 200 {
            Ok(response.body)
        } else if response.status == 400 {
            Err(ClientErrorView::Syntax(response.body))
        } else {
            Err(ClientErrorView::Unexpected(unexpected_text(response.status, response.body)))
        },
    }
}

/// The outcome of a write, as plain values.
pub open spec fn write_result_view(r: Result<(), ClientError>) -> Result<(), ClientErrorView> {
    match r {
        Ok(()) => Ok(()),
        Err(e) => Err(e@),
    }
}

/// The outcome of a query, as plain values.
pub open spec fn query_result_view(r: Result<String, ClientError>) -> Result<
    Seq<char>,
    ClientErrorView,
> {
    match r {
        Ok(body) => Ok(body@),
        Err(e) => Err(e@),
    }
}

fn unexpected_message(status: u16, body: &str) -> (r: String)
    ensures
        r@ == unexpected_text(status, body@),
{
    let mut message = String::from_str("Unexpected response. Status: ");
    push_decimal(&mut message, status as u64);
    message.append("; Body: \"");
    message.append(body);
    message.append("\"");
    message
}

/// Says what the answer to a write means.
pub fn classify_write(reply: Result<Response, String>) -> (r: Result<(), ClientError>)
    ensures
        write_result_view(r) == write_outcome(reply_view(reply)),
{
    match reply {
        Err(message) => Err(ClientError::Communication(message)),
        Ok(response) => {
            if response.status == 204 {
                Ok(())
            } else if response.status == 200 {
                Err(ClientError::CouldNotComplete(response.body))
            } else if response.status == 400 {
                Err(ClientError::Syntax(response.body))
            } else {
                Err(
                    ClientError::Unexpected(
                        unexpected_message(response.status, response.body.as_str()),
                    ),
                )
            }
        },
    }
}

/// Says what the answer to a query means.
pub fn classify_query(reply: Result<Response, String>) -> (r: Result<String, ClientError>)
    ensures
        query_result_view(r) == query_outcome(reply_view(reply)),
{
    match reply {
        Err(message) => Err(ClientError::Communication(message)),
        Ok(response) => {
            if response.status == 200 {
                Ok(response.body)
            } else if response.status == 400 {
                Err(ClientError::Syntax(response.body))
            } else {
                Err(
                    ClientError::Unexpected(
                        unexpected_message(response.status, response.body.as_str()),
                    ),
                )
            }
        },
    }
}

/// What each of the points holds, in order.
pub open spec fn points_view(points: Seq<Point<'_>>) -> Seq<PointView> {
    Seq::new(points.len(), |i: int| points[i]@)
}

/// The body of a write: the lines of the points, one after the other,
/// with a line feed between two of them.
pub open spec fn body_text(points: Seq<PointView>) -> Seq<char>
    decreases points.len(),
{
    if points.len() == 0 {
        seq![]
    } else if points.len() == 1 {
        line_text(points.last())
    } else {
        body_text(points.drop_last()) + seq!['\n'] + line_text(points.last())
    }
}

/// The query parameters of a write: the database, then the precision when
/// one is given.
pub open spec fn write_query(database: Seq<char>, precision: Option<Precision>) -> Seq<
    (Seq<char>, Seq<char>),
> {
    match precision {
        Some(p) => seq![("db"@, database), ("precision"@, p.code())],
        None => seq![("db"@, database)],
    }
}

/// The request that writes `points`: a POST to `/write` on the host, with
/// the credentials attached and the lines of the points as body.
pub open spec fn write_request_view(
    host: Seq<char>,
    credentials: CredentialsView,
    points: Seq<PointView>,
    precision: Option<Precision>,
) -> RequestView {
    RequestView {
        url: host + "/write"@,
        method: Method::POST,
        auth: Some((credentials.username, credentials.password)),
        query: Some(write_query(credentials.database, precision)),
        body: Some(body_text(points)),
    }
}

/// The query parameters of a query: the database, the query text, then the
/// unit of the timestamps when one is given.
pub open spec fn query_query(database: Seq<char>, q: Seq<char>, epoch: Option<Precision>) -> Seq<
    (Seq<char>, Seq<char>),
> {
    match epoch {
        Some(p) => seq![("db"@, database), ("q"@, q), ("epoch"@, p.code())],
        None => seq![("db"@, database), ("q"@, q)],
    }
}

/// The request that asks `q`: a GET to `/query` on the host, without a
/// body. The credentials are attached unless user name and password are
/// both empty.
pub open spec fn query_request_view(
    host: Seq<char>,
    credentials: CredentialsView,
    q: Seq<char>,
    epoch: Option<Precision>,
) -> RequestView {
    RequestView {
        url: host + "/query"@,
        method: Method::GET,
        auth: if credentials.username.len() == 0 && credentials.password.len() == 0 {
            None
        } else {
            Some((credentials.username, credentials.password))
        },
        query: Some(query_query(credentials.database, q, epoch)),
        body: None,
    }
}

/// Where the batch that starts at `offset` ends, among `len` points and
/// with at most `limit` points to a batch.
pub open spec fn batch_end(len: int, offset: int, limit: int) -> int {
    if len - offset > limit {
        offset + limit
    } else {
        len
    }
}

/// The batches that the points from `offset` on are sent in, in the order
/// in which they go out.
pub open spec fn batches<T>(points: Seq<T>, offset: int, limit: int) -> Seq<Seq<T>>
    decreases points.len() - offset,
{
    if limit <= 0 || offset < 0 || offset >= points.len() {
        seq![]
    } else {
        let end = batch_end(points.len() as int, offset, limit);
        seq![points.subrange(offset, end)] + batches(points, end, limit)
    }
}

/// Every batch holds at least one point and at most `limit`, and every
/// batch but the last holds exactly `limit`.
pub proof fn lemma_batch_sizes<T>(points: Seq<T>, offset: int, limit: int)
    requires
        limit > 0,
        0 <= offset <= points.len(),
    ensures
        forall|i: int|
            0 <= i < batches(points, offset, limit).len() ==> 0 < (#[trigger] batches(
                points,
                offset,
                limit,
            )[i]).len() <= limit,
        forall|i: int|
            0 <= i < batches(points, offset, limit).len() - 1 ==> (#[trigger] batches(
                points,
                offset,
                limit,
            )[i]).len() == limit,
    decreases points.len() - offset,
{
    if offset < points.len() {
        let end = batch_end(points.len() as int, offset, limit);
        let all = batches(points, offset, limit);
        let rest = batches(points, end, limit);
        lemma_batch_sizes(points, end, limit);
        assert forall|i: int| 0 <= i < all.len() implies 0 < (#[trigger] all[i]).len() <= limit by {
            if i > 0 {
                assert(all[i] == rest[i - 1]);
            }
        }
        assert forall|i: int| 0 <= i < all.len() - 1 implies (#[trigger] all[i]).len() == limit by {
            if i > 0 {
                assert(all[i] == rest[i - 1]);
            }
        }
    }
}

/// The batches, one after the other, are the points in their order: none
/// is left out, none sent twice.
pub proof fn lemma_batches_cover<T>(points: Seq<T>, offset: int, limit: int)
    requires
        limit > 0,
        0 <= offset <= points.len(),
    ensures
        batches(points, offset, limit).flatten() == points.skip(offset),
    decreases points.len() - offset,
{
    let all = batches(points, offset, limit);
    if offset < points.len() {
        let end = batch_end(points.len() as int, offset, limit);
        lemma_batches_cover(points, end, limit);
        assert(all.drop_first() =~= batches(points, end, limit));
        assert(all.flatten() =~= points.subrange(offset, end) + points.skip(end));
        assert(all.flatten() =~= points.skip(offset));
    } else {
        assert(all.flatten() =~= points.skip(offset));
    }
}

/// The number of batches is the number of points divided by the limit,
/// rounded up.
pub proof fn lemma_batch_count<T>(points: Seq<T>, offset: int, limit: int)
    requires
        limit > 0,
        0 <= offset <= points.len(),
    ensures
        batches(points, offset, limit).len() == (points.len() - offset + limit - 1) / limit,
    decreases points.len() - offset,
{
    let left = points.len() - offset;
    if offset < points.len() {
        let end = batch_end(points.len() as int, offset, limit);
        lemma_batch_count(points, end, limit);
        if left > limit {
            assert((left + limit - 1) / limit == (left - 1) / limit + 1) by (nonlinear_arith)
                requires
                    limit > 0,
            ;
            assert((left - limit + limit - 1) / limit == (left - 1) / limit);
        } else {
            assert((left + limit - 1) / limit == 1) by (nonlinear_arith)
                requires
                    0 < left <= limit,
            ;
            assert((0 + limit - 1) / limit == 0) by (nonlinear_arith)
                requires
                    limit > 0,
            ;
        }
    } else {
        assert((0 + limit - 1) / limit == 0) by (nonlinear_arith)
            requires
                limit > 0,
        ;
    }
}

/// What a write does next.
#[derive(Debug)]
pub enum WriteStep<'a> {
    /// This request is to be sent; once it has gone through, the given
    /// number of points has been sent.
    Send(Request<'a>, usize),
    /// The write is over, with this outcome.
    Done(Result<(), ClientError>),
}

/// What the answer to the request before means for the write; before the
/// first request there is none, and nothing stands in the way.
pub open spec fn reply_outcome(reply: Option<Result<Response, String>>) -> Result<
    (),
    ClientErrorView,
> {
    match reply {
        None => Ok(()),
        Some(reply) => write_outcome(reply_view(reply)),
    }
}

/// A client of one InfluxDB host, over the transport `H`.
pub struct InfluxClient<'a, H> {
    credentials: Credentials<'a>,
    hurl: H,
    host: &'a str,
    pub max_batch: u16,
}

impl<'a, H> InfluxClient<'a, H> {
    /// The address of the host.
    pub closed spec fn host(&self) -> Seq<char> {
        self.host@
    }

    /// The credentials that requests are made with.
    pub closed spec fn credentials(&self) -> CredentialsView {
        self.credentials@
    }

    /// The transport that requests are handed to.
    pub closed spec fn transport(&self) -> H {
        self.hurl
    }

    /// The largest number of points that one request carries.
    pub closed spec fn batch_limit(&self) -> int {
        self.max_batch as int
    }

    /// A client of `host` for `credentials`, which sends its requests
    /// through `hurl`, at most 5000 points to one request.
    pub fn new(credentials: Credentials<'a>, host: &'a str, hurl: H) -> (r: Self)
        ensures
            r.credentials() == credentials@,
            r.host() == host@,
            r.transport() == hurl,
            r.batch_limit() == MAX_BATCH,
    {
        InfluxClient { credentials, hurl, host, max_batch: MAX_BATCH }
    }

    /// Puts another transport in the place of the client's own.
    pub fn set_hurl(&mut self, hurl: H)
        ensures
            final(self).transport() == hurl,
            final(self).credentials() == old(self).credentials(),
            final(self).host() == old(self).host(),
            final(self).batch_limit() == old(self).batch_limit(),
    {
        self.hurl = hurl;
    }

    /// The transport that requests are handed to.
    pub fn hurl(&self) -> (r: &H)
        ensures
            *r == self.transport(),
    {
        &self.hurl
    }

    /// The request that writes `points` in one piece.
    pub fn write_request(&self, points: &[Point<'_>], precision: Option<Precision>) -> (r: Request<
        'a,
    >)
        ensures
            r@ == write_request_view(
                self.host(),
                self.credentials(),
                points_view(points@),
                precision,
            ),
            distinct_keys(r@.query->0),
    {
        let mut url = self.host.to_owned();
        url.append("/write");
        let mut query: Vec<(&'a str, String)> = Vec::new();
        query.push(("db", self.credentials.database.to_owned()));
        match precision {
            Some(p) => {
                query.push(("precision", p.to_string()));
            },
            None => {},
        }
        let ghost lines = points_view(points@);
        let mut body = String::new();
        let mut i: usize = 0;
        proof {
            assert(lines.take(0) =~= seq![]);
        }
        while i < points.len()
            invariant
                i <= points.len(),
                lines == points_view(points@),
                body@ == body_text(lines.take(i as int)),
            decreases points.len() - i,
        {
            proof {
                assert(lines.take(i + 1).drop_last() =~= lines.take(i as int));
            }
            if i > 0 {
                body.push('\n');
            }
            let line = points[i].to_string();
            body.append(line.as_str());
            proof {
                assert(body@ =~= body_text(lines.take(i + 1)));
            }
            i += 1;
        }
        proof {
            assert(lines.take(i as int) =~= lines);
            reveal_strlit("db");
            reveal_strlit("precision");
            assert(query_view(query@) =~= write_query(self.credentials().database, precision));
            assert("db"@.len() == 2 && "precision"@.len() == 9);
            assert(distinct_keys(query_view(query@)));
        }
        Request {
            url,
            method: Method::POST,
            auth: Some(
                Auth { username: self.credentials.username, password: self.credentials.password },
            ),
            query: Some(query),
            body: Some(body),
        }
    }

    /// The next request of a write of `points` of which the first `offset`
    /// have been sent, with the number of points sent once it has gone
    /// through; or `None` when all of them have been sent.
    pub fn next_write(&self, points: &[Point<'_>], offset: usize, precision: Option<Precision>) -> (r:
        Option<(Request<'a>, usize)>)
        requires
            self.batch_limit() > 0,
        ensures
            r is None <==> offset >= points@.len(),
            r matches Some((request, end)) ==> {
                &&& end == batch_end(points@.len() as int, offset as int, self.batch_limit())
                &&& offset < end <= points@.len()
                &&& request@ == write_request_view(
                    self.host(),
                    self.credentials(),
                    points_view(points@).subrange(offset as int, end as int),
                    precision,
                )
                &&& distinct_keys(request@.query->0)
            },
    {
        let len = points.len();
        if offset >= len {
            return None;
        }
        let limit = self.max_batch as usize;
        let end = if len - offset > limit {
            offset + limit
        } else {
            len
        };
        let batch = &points[offset..end];
        proof {
            assert(points_view(batch@) =~= points_view(points@).subrange(
                offset as int,
                end as int,
            ));
        }
        Some((self.write_request(batch, precision), end))
    }

    /// Decides what a write of `points` does next, of which `sent` points
    /// have been handed to the transport, the last of them in a request
    /// that was answered with `reply`. A request that failed ends the
    /// write with its error, and nothing more is sent; else the next batch
    /// goes out, or the write is over when no point is left.
    pub fn write_step(
        &self,
        points: &[Point<'_>],
        precision: Option<Precision>,
        sent: usize,
        reply: Option<Result<Response, String>>,
    ) -> (r: WriteStep<'a>)
        requires
            self.batch_limit() > 0,
        ensures
            match reply_outcome(reply) {
                Err(e) => r matches WriteStep::Done(Err(error)) && error@ == e,
                Ok(()) => if sent >= points@.len() {
                    r matches WriteStep::Done(Ok(()))
                } else {
                    &&& r matches WriteStep::Send(request, end)
                    &&& end == batch_end(points@.len() as int, sent as int, self.batch_limit())
                    &&& sent < end <= points@.len()
                    &&& request@ == write_request_view(
                        self.host(),
                        self.credentials(),
                        points_view(points@).subrange(sent as int, end as int),
                        precision,
                    )
                    &&& distinct_keys(request@.query->0)
                },
            },
    {
        let outcome = match reply {
            None => Ok(()),
            Some(reply) => classify_write(reply),
        };
        match outcome {
            Err(e) => WriteStep::Done(Err(e)),
            Ok(()) => match self.next_write(points, sent, precision) {
                None => WriteStep::Done(Ok(())),
                Some((request, end)) => WriteStep::Send(request, end),
            },
        }
    }

    /// The request that asks `q`.
    pub fn query_request(&self, q: String, epoch: Option<Precision>) -> (r: Request<'a>)
        ensures
            r@ == query_request_view(self.host(), self.credentials(), q@, epoch),
            r@.auth is None <==> self.credentials().username.len() == 0
                && self.credentials().password.len() == 0,
            distinct_keys(r@.query->0),
    {
        let mut url = self.host.to_owned();
        url.append("/query");
        let mut query: Vec<(&'a str, String)> = Vec::new();
        query.push(("db", self.credentials.database.to_owned()));
        query.push(("q", q));
        match epoch {
            Some(p) => {
                query.push(("epoch", p.to_string()));
            },
            None => {},
        }
        let auth = if self.credentials.username.is_empty() && self.credentials.password.is_empty() {
            None
        } else {
            Some(Auth { username: self.credentials.username, password: self.credentials.password })
        };
        proof {
            reveal_strlit("db");
            reveal_strlit("q");
            reveal_strlit("epoch");
            assert(query_view(query@) =~= query_query(self.credentials().database, q@, epoch));
            assert("db"@.len() == 2 && "q"@.len() == 1 && "epoch"@.len() == 5);
            assert(distinct_keys(query_view(query@)));
        }
        Request { url, method: Method::GET, auth, query: Some(query), body: None }
    }
}

/// True of the outcomes that a query can have over the transport `hurl`:
/// the transport gives some reply to the request that asks `q`, and the
/// outcome is what that reply means.
pub open spec fn query_run<H: Hurl>(
    hurl: H,
    host: Seq<char>,
    credentials: CredentialsView,
    q: Seq<char>,
    epoch: Option<Precision>,
    outcome: Result<Seq<char>, ClientErrorView>,
) -> bool {
    exists|request: Request<'_>, reply: Result<Response, String>|
        {
            &&& request@ == query_request_view(host, credentials, q, epoch)
            &&& #[trigger] call_ensures(H::request, (&hurl, request), reply)
            &&& outcome == query_outcome(reply_view(reply))
        }
}

/// True of the outcomes that a write of `points` can have over the
/// transport `hurl`, once the first `sent` points have gone through. With
/// no point left the write has succeeded. Else the transport gives some
/// reply to the request that carries the next batch: a reply that means
/// failure is the outcome of the whole write, and nothing more is sent;
/// after one that means success the write goes on behind the batch.
pub open spec fn write_run<H: Hurl>(
    hurl: H,
    host: Seq<char>,
    credentials: CredentialsView,
    limit: int,
    points: Seq<PointView>,
    precision: Option<Precision>,
    sent: int,
    outcome: Result<(), ClientErrorView>,
) -> bool
    decreases points.len() - sent,
{
    if limit <= 0 || sent < 0 {
        false
    } else if sent >= points.len() {
        outcome == Ok::<(), ClientErrorView>(())
    } else {
        let end = batch_end(points.len() as int, sent, limit);
        exists|request: Request<'_>, reply: Result<Response, String>|
            {
                &&& request@ == write_request_view(
                    host,
                    credentials,
                    points.subrange(sent, end),
                    precision,
                )
                &&& #[trigger] call_ensures(H::request, (&hurl, request), reply)
                &&& match write_outcome(reply_view(reply)) {
                    Err(e) => outcome == Err::<(), ClientErrorView>(e),
                    Ok(()) => write_run(
                        hurl,
                        host,
                        credentials,
                        limit,
                        points,
                        precision,
                        end,
                        outcome,
                    ),
                }
            }
    }
}

/// One exchange of a write: what the transport gave on the request for the
/// batch behind `sent` decides the outcome, or leaves it to the rest of
/// the write.
pub proof fn lemma_write_run_step<H: Hurl>(
    hurl: H,
    host: Seq<char>,
    credentials: CredentialsView,
    limit: int,
    points: Seq<PointView>,
    precision: Option<Precision>,
    sent: int,
    request: Request<'_>,
    reply: Result<Response, String>,
    outcome: Result<(), ClientErrorView>,
)
    requires
        limit > 0,
        0 <= sent < points.len(),
        request@ == write_request_view(
            host,
            credentials,
            points.subrange(sent, batch_end(points.len() as int, sent, limit)),
            precision,
        ),
        call_ensures(H::request, (&hurl, request), reply),
        match write_outcome(reply_view(reply)) {
            Err(e) => outcome == Err::<(), ClientErrorView>(e),
            Ok(()) => write_run(
                hurl,
                host,
                credentials,
                limit,
                points,
                precision,
                batch_end(points.len() as int, sent, limit),
                outcome,
            ),
        },
    ensures
        write_run(hurl, host, credentials, limit, points, precision, sent, outcome),
{
}

impl<'a, H: Hurl> InfluxClient<'a, H> {
    /// Asks `q` and returns the body of the answer as it came: the request
    /// goes to the transport once, and what comes back decides.
    pub fn query(&self, q: String, epoch: Option<Precision>) -> (r: Result<String, ClientError>)
        ensures
            query_run(
                self.transport(),
                self.host(),
                self.credentials(),
                q@,
                epoch,
                query_result_view(r),
            ),
            r matches Err(e) ==> e is Communication || e is Syntax || e is Unexpected,
    {
        let request = self.query_request(q, epoch);
        let ghost asked = request;
        let reply = self.hurl.request(request);
        let ghost given = reply;
        let r = classify_query(reply);
        proof {
            assert(call_ensures(H::request, (&self.hurl, asked), given));
        }
        r
    }

    /// Writes one point: a write of that point alone.
    pub fn write_one(&self, measurement: Point<'_>, precision: Option<Precision>) -> (r: Result<
        (),
        ClientError,
    >)
        requires
            self.batch_limit() > 0,
        ensures
            write_run(
                self.transport(),
                self.host(),
                self.credentials(),
                self.batch_limit(),
                seq![measurement@],
                precision,
                0,
                write_result_view(r),
            ),
            r matches Err(e) ==> e is Communication || e is CouldNotComplete || e is Syntax
                || e is Unexpected,
    {
        let points = vec![measurement];
        proof {
            assert(points_view(points@) =~= seq![measurement@]);
        }
        self.write_many(points.as_slice(), precision)
    }

    /// Writes the points in batches, one request after the other, and
    /// stops at the first that fails. Without points nothing is sent.
    pub fn write_many(&self, measurements: &[Point<'_>], precision: Option<Precision>) -> (r:
        Result<(), ClientError>)
        requires
            self.batch_limit() > 0,
        ensures
            write_run(
                self.transport(),
                self.host(),
                self.credentials(),
                self.batch_limit(),
                points_view(measurements@),
                precision,
                0,
                write_result_view(r),
            ),
            measurements@.len() == 0 ==> r is Ok,
            r matches Err(e) ==> e is Communication || e is CouldNotComplete || e is Syntax
                || e is Unexpected,
    {
        let ghost points = points_view(measurements@);
        let ghost limit = self.batch_limit();
        // the batch that the pending reply answers starts at `base`
        let ghost mut base: int = 0;
        let ghost mut pending: Option<Request<'a>> = None;
        let mut sent: usize = 0;
        let mut reply: Option<Result<Response, String>> = None;
        loop
            invariant
                limit == self.batch_limit(),
                limit > 0,
                points == points_view(measurements@),
                sent <= measurements@.len(),
                measurements@.len() == 0 ==> reply is None,
                forall|o: Result<(), ClientErrorView>| #[trigger]
                    write_run(
                        self.transport(),
                        self.host(),
                        self.credentials(),
                        limit,
                        points,
                        precision,
                        base,
                        o,
                    ) ==> write_run(
                        self.transport(),
                        self.host(),
                        self.credentials(),
                        limit,
                        points,
                        precision,
                        0,
                        o,
                    ),
                reply is None ==> base == sent,
                reply matches Some(given) ==> {
                    &&& 0 <= base < points.len()
                    &&& sent == batch_end(points.len() as int, base, limit)
                    &&& pending matches Some(asked)
                    &&& asked@ == write_request_view(
                        self.host(),
                        self.credentials(),
                        points.subrange(base, sent as int),
                        precision,
                    )
                    &&& call_ensures(H::request, (&self.transport(), asked), given)
                },
            decreases measurements@.len() - sent,
        {
            let ghost given = reply;
            let step = self.write_step(measurements, precision, sent, reply);
            proof {
                // what the pending reply leaves open is open from `sent` on
                if given is Some {
                    let answer = given->0;
                    assert forall|o: Result<(), ClientErrorView>|
                        (match write_outcome(reply_view(answer)) {
                            Err(e) => o == Err::<(), ClientErrorView>(e),
                            Ok(()) => write_run(
                                self.transport(),
                                self.host(),
                                self.credentials(),
                                limit,
                                points,
                                precision,
                                sent as int,
                                o,
                            ),
                        }) implies #[trigger] write_run(
                        self.transport(),
                        self.host(),
                        self.credentials(),
                        limit,
                        points,
                        precision,
                        base,
                        o,
                    ) by {
                        lemma_write_run_step(
                            self.transport(),
                            self.host(),
                            self.credentials(),
                            limit,
                            points,
                            precision,
                            base,
                            pending->0,
                            answer,
                            o,
                        );
                    }
                }
            }
            match step {
                WriteStep::Done(outcome) => {
                    proof {
                        let o = write_result_view(outcome);
                        if reply_outcome(given) is Ok {
                            assert(write_run(
                                self.transport(),
                                self.host(),
                                self.credentials(),
                                limit,
                                points,
                                precision,
                                sent as int,
                                o,
                            ));
                        }
                        assert(write_run(
                            self.transport(),
                            self.host(),
                            self.credentials(),
                            limit,
                            points,
                            precision,
                            base,
                            o,
                        ));
                    }
                    return outcome;
                },
                WriteStep::Send(request, end) => {
                    proof {
                        assert forall|o: Result<(), ClientErrorView>| #[trigger]
                            write_run(
                                self.transport(),
                                self.host(),
                                self.credentials(),
                                limit,
                                points,
                                precision,
                                sent as int,
                                o,
                            ) implies write_run(
                            self.transport(),
                            self.host(),
                            self.credentials(),
                            limit,
                            points,
                            precision,
                            0,
                            o,
                        ) by {
                            if given is Some {
                                assert(write_run(
                                    self.transport(),
                                    self.host(),
                                    self.credentials(),
                                    limit,
                                    points,
                                    precision,
                                    base,
                                    o,
                                ));
                            }
                        }
                        base = sent as int;
                        pending = Some(request);
                    }
                    reply = Some(self.hurl.request(request));
                    sent = end;
                },
            }
        }
    }
}

} // verus!
